//! Fingerprints of log lines, redaction of secrets, and device labels.

use vstd::prelude::*;

use sha2::Digest;

use crate::scan::{
    digit, hex, is_hex, lemma_run_end_bounds, non_ws, run_end, skip_digits, skip_hex,
    skip_non_ws, skip_ws_run, word_boundary, is_word_boundary, ws, literal_at,
};
use crate::scan::lemma_run_end;
use crate::text::{chars_of, is_decimal, is_ws, occurs_at, string_of, word_char};

verus! {

// ---------------------------------------------------------------------------
// Replacing matches
// ---------------------------------------------------------------------------

/// The text from `pos` on with each match of a pattern replaced by `#`:
/// `len(s, p)` is the length of the match that starts at `p` (zero for none),
/// and the search resumes after each match.
pub open spec fn replaced(s: Seq<char>, pos: int, len: spec_fn(Seq<char>, int) -> int) -> Seq<char>
    decreases s.len() - pos,
{
    if pos < 0 || pos >= s.len() {
        seq![]
    } else if len(s, pos) > 0 && pos + len(s, pos) <= s.len() {
        seq!['#'] + replaced(s, pos + len(s, pos), len)
    } else {
        seq![s[pos]] + replaced(s, pos + 1, len)
    }
}

/// Where the pattern matches nowhere from `pos` on, replacing changes
/// nothing: the result is the rest of the text.
proof fn lemma_replaced_unmatched(s: Seq<char>, pos: int, len: spec_fn(Seq<char>, int) -> int)
    requires
        0 <= pos <= s.len(),
        forall|p: int| pos <= p < s.len() ==> #[trigger] len(s, p) <= 0,
    ensures
        replaced(s, pos, len) == s.skip(pos),
    decreases s.len() - pos,
{
    if pos < s.len() {
        lemma_replaced_unmatched(s, pos + 1, len);
        assert(seq![s[pos]] + s.skip(pos + 1) =~= s.skip(pos));
    } else {
        assert(s.skip(pos) =~= Seq::<char>::empty());
    }
}

/// Redacting a text in which no secret pattern matches gives the text back.
pub proof fn redact_keeps_text_without_secrets(s: Seq<char>)
    requires
        forall|p: int| 0 <= p < s.len() ==> #[trigger] secret_len(s, p) == 0,
    ensures
        replaced(s, 0, secrets()) == s,
{
    assert forall|p: int| 0 <= p < s.len() implies #[trigger] secrets()(s, p) <= 0 by {
        assert(secret_len(s, p) == 0);
    }
    lemma_replaced_unmatched(s, 0, secrets());
    assert(s.skip(0) =~= s);
}

/// Collapsing a text in which no noise pattern matches gives the text back.
pub proof fn collapse_keeps_text_without_noise(s: Seq<char>)
    requires
        forall|p: int| 0 <= p < s.len() ==> #[trigger] noise_len(s, p) == 0,
    ensures
        replaced(s, 0, noise()) == s,
{
    assert forall|p: int| 0 <= p < s.len() implies #[trigger] noise()(s, p) <= 0 by {
        assert(noise_len(s, p) == 0);
    }
    lemma_replaced_unmatched(s, 0, noise());
    assert(s.skip(0) =~= s);
}

// ---------------------------------------------------------------------------
// Noise: 0x[0-9a-fA-F]+ | /[^\s]+ | \b\d+\b
// ---------------------------------------------------------------------------

/// The length of the noise match at `p`: a hexadecimal number, a path, or a
/// whole decimal number (tried in that order); zero for none.
pub open spec fn noise_len(s: Seq<char>, p: int) -> int {
    let h = run_end(s, p + 2, hex());
    let w = run_end(s, p + 1, non_ws());
    let d = run_end(s, p, digit());
    if 0 <= p && occurs_at(s, "0x"@, p) && h > p + 2 {
        h - p
    } else if 0 <= p < s.len() && s[p] == '/' && w > p + 1 {
        w - p
    } else if 0 <= p && word_boundary(s, p) && d > p && word_boundary(s, d) {
        d - p
    } else {
        0
    }
}

/// The noise pattern as a function.
pub open spec fn noise() -> spec_fn(Seq<char>, int) -> int {
    |s: Seq<char>, p: int| noise_len(s, p)
}

fn noise_len_exec(s: &[char], p: usize) -> (r: usize)
    requires
        p < s@.len(),
    ensures
        r as int == noise_len(s@, p as int),
        p + r <= s@.len(),
{
    proof {
        reveal_strlit("0x");
    }
    assert(s@.len() == s.len());
    if literal_at(s, "0x", p) {
        let h = skip_hex(s, p + 2);
        proof {
            lemma_run_end_bounds(s@, p + 2, hex());
        }
        if h > p + 2 {
            return h - p;
        }
    }
    if s[p] == '/' {
        let w = skip_non_ws(s, p + 1);
        proof {
            lemma_run_end_bounds(s@, p + 1, non_ws());
        }
        if w > p + 1 {
            return w - p;
        }
    }
    if is_word_boundary(s, p) {
        let d = skip_digits(s, p);
        proof {
            lemma_run_end_bounds(s@, p as int, digit());
        }
        if d > p && is_word_boundary(s, d) {
            return d - p;
        }
    }
    0
}

/// `message` with volatile noise (hexadecimal numbers, paths, whole decimal
/// numbers) replaced by `#`.
pub fn collapse_noise(message: &str) -> (r: String)
    ensures
        r@ == replaced(message@, 0, noise()),
{
    let s = chars_of(message);
    let mut out: Vec<char> = Vec::new();
    let mut pos: usize = 0;
    while pos < s.len()
        invariant
            pos <= s@.len(),
            s@ == message@,
            out@ + replaced(s@, pos as int, noise()) == replaced(s@, 0, noise()),
        decreases s@.len() - pos,
    {
        let m = noise_len_exec(s.as_slice(), pos);
        let ghost prev = out@;
        if m > 0 {
            out.push('#');
            assert(out@ + replaced(s@, (pos + m) as int, noise()) =~= prev + replaced(s@, pos as int, noise()));
            pos = pos + m;
        } else {
            out.push(s[pos]);
            assert(out@ + replaced(s@, pos + 1, noise()) =~= prev + replaced(s@, pos as int, noise()));
            pos = pos + 1;
        }
    }
    assert(out@ =~= replaced(s@, 0, noise()));
    string_of(out.as_slice())
}

// ---------------------------------------------------------------------------
// Secrets
// ---------------------------------------------------------------------------

/// `[A-Za-z0-9_-]`, the characters of a JWT part.
pub open spec fn is_jwt(c: char) -> bool {
    ('A' <= c && c <= 'Z') || ('a' <= c && c <= 'z') || ('0' <= c && c <= '9') || c == '_' || c == '-'
}

/// `[A-Za-z0-9._%+-]`, the characters of an email's local part.
pub open spec fn is_local(c: char) -> bool {
    ('A' <= c && c <= 'Z') || ('a' <= c && c <= 'z') || ('0' <= c && c <= '9') || c == '.' || c
        == '_' || c == '%' || c == '+' || c == '-'
}

/// `[A-Za-z0-9.-]`, the characters of an email's domain.
pub open spec fn is_domain(c: char) -> bool {
    ('A' <= c && c <= 'Z') || ('a' <= c && c <= 'z') || ('0' <= c && c <= '9') || c == '.' || c
        == '-'
}

/// `[A-Za-z]`.
pub open spec fn is_alpha(c: char) -> bool {
    ('A' <= c && c <= 'Z') || ('a' <= c && c <= 'z')
}

pub open spec fn jwt() -> spec_fn(char) -> bool {
    |c: char| is_jwt(c)
}

pub open spec fn local() -> spec_fn(char) -> bool {
    |c: char| is_local(c)
}

pub open spec fn domain() -> spec_fn(char) -> bool {
    |c: char| is_domain(c)
}

pub open spec fn alpha() -> spec_fn(char) -> bool {
    |c: char| is_alpha(c)
}

/// A MAC address at `p`: six pairs of hexadecimal digits separated by `:`.
pub open spec fn mac_at(s: Seq<char>, p: int) -> bool {
    0 <= p && p + 17 <= s.len() && forall|i: int|
        0 <= i < 17 ==> if i % 3 == 2 {
            #[trigger] s[p + i] == ':'
        } else {
            is_hex(s[p + i])
        }
}

/// The end of a `Bearer\s+\S+` match at `p`, or -1.
pub open spec fn bearer_end(s: Seq<char>, p: int) -> int {
    let w = run_end(s, p + 6, ws());
    let e = run_end(s, w, non_ws());
    if 0 <= p && occurs_at(s, "Bearer"@, p) && w > p + 6 && e > w {
        e
    } else {
        -1
    }
}

/// The end of an `eyJ[A-Za-z0-9_-]+\.[A-Za-z0-9_-]+` match at `p`, or -1.
pub open spec fn jwt_end(s: Seq<char>, p: int) -> int {
    let a = run_end(s, p + 3, jwt());
    let b = run_end(s, a + 1, jwt());
    if 0 <= p && occurs_at(s, "eyJ"@, p) && a > p + 3 && a < s.len() && s[a] == '.' && b > a + 1 {
        b
    } else {
        -1
    }
}

/// Whether `\.[A-Za-z]{2,}` matches at `k`.
pub open spec fn tld_at(s: Seq<char>, k: int) -> bool {
    0 <= k < s.len() && s[k] == '.' && run_end(s, k + 1, alpha()) >= k + 3
}

/// The last `k` in `[lo, hi]` at which `tld_at` holds, or -1.
pub open spec fn last_tld(s: Seq<char>, lo: int, hi: int) -> int
    decreases hi - lo + 1,
{
    if hi < lo {
        -1
    } else if tld_at(s, hi) {
        hi
    } else {
        last_tld(s, lo, hi - 1)
    }
}

proof fn lemma_last_tld(s: Seq<char>, lo: int, hi: int)
    ensures
        last_tld(s, lo, hi) >= 0 ==> lo <= last_tld(s, lo, hi) <= hi && tld_at(s, last_tld(s, lo, hi)),
        last_tld(s, lo, hi) < 0 ==> last_tld(s, lo, hi) == -1,
    decreases hi - lo + 1,
{
    if hi >= lo && !tld_at(s, hi) {
        lemma_last_tld(s, lo, hi - 1);
    }
}

/// The end of an email match at `p`, or -1: the local part up to `@`, then
/// the longest domain part after which a dot and two or more letters follow.
pub open spec fn email_end(s: Seq<char>, p: int) -> int {
    let q = run_end(s, p, local());
    let e = run_end(s, q + 1, domain());
    let k = last_tld(s, q + 2, e - 1);
    if 0 <= p && q > p && q < s.len() && s[q] == '@' && k >= 0 {
        run_end(s, k + 1, alpha())
    } else {
        -1
    }
}

/// The length of the secret match at `p`: a MAC address, a Bearer token, a
/// JWT-like blob, or an email (tried in that order); zero for none.
pub open spec fn secret_len(s: Seq<char>, p: int) -> int {
    if mac_at(s, p) {
        17
    } else if bearer_end(s, p) > p {
        bearer_end(s, p) - p
    } else if jwt_end(s, p) > p {
        jwt_end(s, p) - p
    } else if email_end(s, p) > p {
        email_end(s, p) - p
    } else {
        0
    }
}

/// The secret pattern as a function.
pub open spec fn secrets() -> spec_fn(Seq<char>, int) -> int {
    |s: Seq<char>, p: int| secret_len(s, p)
}

fn is_hex_exec(c: char) -> (r: bool)
    ensures
        r == is_hex(c),
{
    ('0' <= c && c <= '9') || ('a' <= c && c <= 'f') || ('A' <= c && c <= 'F')
}

fn mac_at_exec(s: &[char], p: usize) -> (r: bool)
    ensures
        r == mac_at(s@, p as int),
{
    if p > s.len() || s.len() - p < 17 {
        return false;
    }
    let mut i: usize = 0;
    while i < 17
        invariant
            i <= 17,
            p + 17 <= s@.len(),
            s@.len() == s.len(),
            forall|j: int| 0 <= j < i ==> if j % 3 == 2 {
                #[trigger] s@[p + j] == ':'
            } else {
                is_hex(s@[p + j])
            },
        decreases 17 - i,
    {
        let c = s[p + i];
        let ok = if i % 3 == 2 {
            c == ':'
        } else {
            is_hex_exec(c)
        };
        if !ok {
            assert(!(if (i as int) % 3 == 2 {
                s@[p + i as int] == ':'
            } else {
                is_hex(s@[p + i as int])
            }));
            return false;
        }
        i = i + 1;
    }
    true
}

fn skip_class(s: &[char], i: usize, which: u8) -> (r: usize)
    requires
        i <= s@.len(),
        which < 4,
    ensures
        r as int == run_end(
            s@,
            i as int,
            if which == 0 {
                jwt()
            } else if which == 1 {
                local()
            } else if which == 2 {
                domain()
            } else {
                alpha()
            },
        ),
        i <= r <= s@.len(),
{
    let ghost p = if which == 0 {
        jwt()
    } else if which == 1 {
        local()
    } else if which == 2 {
        domain()
    } else {
        alpha()
    };
    let mut k = i;
    loop
        invariant
            i <= k <= s@.len(),
            which < 4,
            p == (if which == 0 {
                jwt()
            } else if which == 1 {
                local()
            } else if which == 2 {
                domain()
            } else {
                alpha()
            }),
            forall|j: int| i <= j < k ==> p(#[trigger] s@[j]),
        ensures
            i <= k <= s@.len(),
            forall|j: int| i <= j < k ==> p(#[trigger] s@[j]),
            k < s@.len() ==> !p(s@[k as int]),
        decreases s@.len() - k,
    {
        if k >= s.len() {
            break;
        }
        let c = s[k];
        let alpha_c = ('A' <= c && c <= 'Z') || ('a' <= c && c <= 'z');
        let digit_c = '0' <= c && c <= '9';
        let inside = if which == 0 {
            alpha_c || digit_c || c == '_' || c == '-'
        } else if which == 1 {
            alpha_c || digit_c || c == '.' || c == '_' || c == '%' || c == '+' || c == '-'
        } else if which == 2 {
            alpha_c || digit_c || c == '.' || c == '-'
        } else {
            alpha_c
        };
        assert(inside == p(c));
        if !inside {
            break;
        }
        k = k + 1;
    }
    proof {
        crate::scan::lemma_run_end(s@, i as int, k as int, p);
    }
    k
}

fn bearer_end_exec(s: &[char], p: usize) -> (r: Option<usize>)
    requires
        p <= s@.len(),
    ensures
        match r {
            Some(e) => bearer_end(s@, p as int) == e as int,
            None => bearer_end(s@, p as int) == -1,
        },
{
    proof {
        reveal_strlit("Bearer");
    }
    assert(s@.len() == s.len());
    if !literal_at(s, "Bearer", p) {
        return None;
    }
    let w = skip_ws_run(s, p + 6);
    proof {
        lemma_run_end_bounds(s@, p + 6, ws());
    }
    if w == p + 6 {
        return None;
    }
    let e = skip_non_ws(s, w);
    proof {
        lemma_run_end_bounds(s@, w as int, non_ws());
    }
    if e == w {
        return None;
    }
    Some(e)
}

fn jwt_end_exec(s: &[char], p: usize) -> (r: Option<usize>)
    requires
        p <= s@.len(),
    ensures
        match r {
            Some(e) => jwt_end(s@, p as int) == e as int,
            None => jwt_end(s@, p as int) == -1,
        },
{
    proof {
        reveal_strlit("eyJ");
    }
    assert(s@.len() == s.len());
    if !literal_at(s, "eyJ", p) {
        return None;
    }
    let a = skip_class(s, p + 3, 0);
    if a == p + 3 || a >= s.len() || s[a] != '.' {
        return None;
    }
    let b = skip_class(s, a + 1, 0);
    if b == a + 1 {
        return None;
    }
    Some(b)
}

fn email_end_exec(s: &[char], p: usize) -> (r: Option<usize>)
    requires
        p <= s@.len(),
    ensures
        match r {
            Some(e) => email_end(s@, p as int) == e as int,
            None => email_end(s@, p as int) == -1,
        },
{
    assert(s@.len() == s.len());
    let q = skip_class(s, p, 1);
    if q == p || q >= s.len() || s[q] != '@' {
        return None;
    }
    let e = skip_class(s, q + 1, 2);
    let mut k: usize = e;
    loop
        invariant
            p < q < s@.len(),
            s@[q as int] == '@',
            q as int == run_end(s@, p as int, local()),
            e as int == run_end(s@, q + 1, domain()),
            q + 1 <= k <= e <= s@.len(),
            s@.len() == s.len(),
            last_tld(s@, q + 2, e - 1) == last_tld(s@, q + 2, k - 1),
        decreases k,
    {
        if k - q < 3 {
            assert(last_tld(s@, q + 2, k - 1) == -1);
            return None;
        }
        let kk = k - 1;
        if s[kk] == '.' {
            let t = skip_class(s, kk + 1, 3);
            if t - kk >= 3 {
                assert(tld_at(s@, kk as int));
                return Some(t);
            }
        }
        k = k - 1;
    }
}

fn secret_len_exec(s: &[char], p: usize) -> (r: usize)
    requires
        p < s@.len(),
    ensures
        r as int == secret_len(s@, p as int),
        p + r <= s@.len(),
{
    if mac_at_exec(s, p) {
        return 17;
    }
    match bearer_end_exec(s, p) {
        Some(e) => {
            proof {
                reveal_strlit("Bearer");
                lemma_run_end_bounds(s@, p + 6, ws());
                lemma_run_end_bounds(s@, run_end(s@, p + 6, ws()), non_ws());
            }
            return e - p;
        },
        None => {},
    }
    match jwt_end_exec(s, p) {
        Some(e) => {
            proof {
                reveal_strlit("eyJ");
                lemma_run_end_bounds(s@, p + 3, jwt());
                lemma_run_end_bounds(s@, run_end(s@, p + 3, jwt()) + 1, jwt());
            }
            return e - p;
        },
        None => {},
    }
    match email_end_exec(s, p) {
        Some(e) => {
            proof {
                let q = run_end(s@, p as int, local());
                lemma_run_end_bounds(s@, p as int, local());
                let k = last_tld(s@, q + 2, run_end(s@, q + 1, domain()) - 1);
                lemma_last_tld(s@, q + 2, run_end(s@, q + 1, domain()) - 1);
                lemma_run_end_bounds(s@, k + 1, alpha());
            }
            return e - p;
        },
        None => {},
    }
    0
}

/// A copy of `message` with secrets and real-world identifiers (MAC
/// addresses, Bearer tokens, JWT-like blobs, emails) replaced by `#`; paths
/// and numbers stay.
pub fn redact(message: &str) -> (r: String)
    ensures
        r@ == replaced(message@, 0, secrets()),
{
    let s = chars_of(message);
    let mut out: Vec<char> = Vec::new();
    let mut pos: usize = 0;
    while pos < s.len()
        invariant
            pos <= s@.len(),
            s@ == message@,
            out@ + replaced(s@, pos as int, secrets()) == replaced(s@, 0, secrets()),
        decreases s@.len() - pos,
    {
        let m = secret_len_exec(s.as_slice(), pos);
        let ghost prev = out@;
        if m > 0 {
            out.push('#');
            assert(out@ + replaced(s@, (pos + m) as int, secrets()) =~= prev + replaced(s@, pos as int, secrets()));
            pos = pos + m;
        } else {
            out.push(s[pos]);
            assert(out@ + replaced(s@, pos + 1, secrets()) =~= prev + replaced(s@, pos as int, secrets()));
            pos = pos + 1;
        }
    }
    assert(out@ =~= replaced(s@, 0, secrets()));
    string_of(out.as_slice())
}

// ---------------------------------------------------------------------------
// Redacting twice
// ---------------------------------------------------------------------------

proof fn lemma_run_end_le(s: Seq<char>, i: int, p: spec_fn(char) -> bool)
    ensures
        run_end(s, i, p) <= s.len(),
        0 <= i <= s.len() ==> i <= run_end(s, i, p),
    decreases s.len() - i,
{
    if 0 <= i < s.len() && p(s[i]) {
        lemma_run_end_le(s, i + 1, p);
    }
}

/// A run found in a suffix is the same run, shifted.
proof fn lemma_run_end_shift(s: Seq<char>, p: int, i: int, c: spec_fn(char) -> bool)
    requires
        0 <= p <= s.len(),
        0 <= i,
    ensures
        run_end(s, p + i, c) == p + run_end(s.skip(p), i, c),
    decreases s.len() - p - i,
{
    let t = s.skip(p);
    if p + i < s.len() {
        assert(t[i] == s[p + i]);
        if c(s[p + i]) {
            lemma_run_end_shift(s, p, i + 1, c);
        }
    }
}

proof fn lemma_tld_shift(s: Seq<char>, p: int, k: int)
    requires
        0 <= p <= s.len(),
        0 <= k,
    ensures
        tld_at(s, p + k) == tld_at(s.skip(p), k),
{
    lemma_run_end_shift(s, p, k + 1, alpha());
    if p + k < s.len() {
        assert(s.skip(p)[k] == s[p + k]);
    }
}

proof fn lemma_last_tld_shift(s: Seq<char>, p: int, lo: int, hi: int)
    requires
        0 <= p <= s.len(),
        0 <= lo,
    ensures
        last_tld(s, p + lo, p + hi) == if last_tld(s.skip(p), lo, hi) < 0 {
            -1
        } else {
            p + last_tld(s.skip(p), lo, hi)
        },
    decreases hi - lo + 1,
{
    lemma_last_tld(s.skip(p), lo, hi);
    if hi >= lo {
        lemma_tld_shift(s, p, hi);
        if !tld_at(s, p + hi) {
            lemma_last_tld_shift(s, p, lo, hi - 1);
        }
    }
}

/// A secret match at `p` depends only on the text from `p` on.
proof fn lemma_secret_local(s: Seq<char>, p: int)
    requires
        0 <= p <= s.len(),
    ensures
        secret_len(s, p) == secret_len(s.skip(p), 0),
{
    let t = s.skip(p);
    assert forall|i: int| 0 <= i < t.len() implies #[trigger] t[i] == s[p + i] by {}
    if mac_at(s, p) {
        assert forall|i: int| 0 <= i < 17 implies if i % 3 == 2 {
            #[trigger] t[0 + i] == ':'
        } else {
            is_hex(t[0 + i])
        } by {
            assert(t[i] == s[p + i]);
        }
    }
    if mac_at(t, 0) {
        assert forall|i: int| 0 <= i < 17 implies if i % 3 == 2 {
            #[trigger] s[p + i] == ':'
        } else {
            is_hex(s[p + i])
        } by {
            assert(t[0 + i] == s[p + i]);
        }
    }
    assert(occurs_at(s, "Bearer"@, p) == occurs_at(t, "Bearer"@, 0)) by {
        if p + "Bearer"@.len() <= s.len() {
            assert(s.subrange(p, p + "Bearer"@.len()) =~= t.subrange(0, "Bearer"@.len() as int));
        }
    }
    assert(occurs_at(s, "eyJ"@, p) == occurs_at(t, "eyJ"@, 0)) by {
        if p + "eyJ"@.len() <= s.len() {
            assert(s.subrange(p, p + "eyJ"@.len()) =~= t.subrange(0, "eyJ"@.len() as int));
        }
    }
    lemma_run_end_shift(s, p, 6, ws());
    let w = run_end(t, 6, ws());
    lemma_run_end_le(t, 6, ws());
    lemma_run_end_shift(s, p, w, non_ws());
    lemma_run_end_shift(s, p, 3, jwt());
    let a = run_end(t, 3, jwt());
    lemma_run_end_le(t, 3, jwt());
    lemma_run_end_shift(s, p, a + 1, jwt());
    if p + a < s.len() {
        assert(t[a] == s[p + a]);
    }
    lemma_run_end_shift(s, p, 0, local());
    let q = run_end(t, 0, local());
    lemma_run_end_le(t, 0, local());
    if p + q < s.len() {
        assert(t[q] == s[p + q]);
    }
    lemma_run_end_shift(s, p, q + 1, domain());
    let e = run_end(t, q + 1, domain());
    lemma_last_tld_shift(s, p, q + 2, e - 1);
    let k = last_tld(t, q + 2, e - 1);
    lemma_last_tld(t, q + 2, e - 1);
    if k >= 0 {
        lemma_run_end_shift(s, p, k + 1, alpha());
    }
    assert(bearer_end(s, p) == if bearer_end(t, 0) < 0 {
        -1
    } else {
        p + bearer_end(t, 0)
    });
    assert(jwt_end(s, p) == if jwt_end(t, 0) < 0 {
        -1
    } else {
        p + jwt_end(t, 0)
    });
    assert(email_end(s, p) == if email_end(t, 0) < 0 {
        -1
    } else {
        p + email_end(t, 0)
    });
}

/// A secret match never runs past the end of the text.
proof fn lemma_secret_fits(s: Seq<char>, p: int)
    requires
        0 <= p,
    ensures
        0 <= secret_len(s, p),
        p + secret_len(s, p) <= s.len() || secret_len(s, p) == 0,
{
    lemma_run_end_le(s, run_end(s, p + 6, ws()), non_ws());
    lemma_run_end_le(s, run_end(s, p + 3, jwt()) + 1, jwt());
    let q = run_end(s, p, local());
    let e = run_end(s, q + 1, domain());
    lemma_run_end_le(s, last_tld(s, q + 2, e - 1) + 1, alpha());
}

/// A secret match starts with a character that is not whitespace.
proof fn lemma_match_start(v: Seq<char>, w: int)
    requires
        0 <= w < v.len(),
        secret_len(v, w) > 0,
    ensures
        !is_ws(v[w]),
{
    reveal_strlit("Bearer");
    reveal_strlit("eyJ");
    if mac_at(v, w) {
        assert(is_hex(v[w + 0]));
    } else if bearer_end(v, w) > w {
        assert(v.subrange(w, w + 6)[0] == v[w]);
    } else if jwt_end(v, w) > w {
        assert(v.subrange(w, w + 3)[0] == v[w]);
    } else {
        assert(is_local(v[w]));
    }
}

/// No secret match starts at a `#`.
proof fn lemma_hash_starts_nothing(u: Seq<char>)
    requires
        u.len() > 0,
        u[0] == '#',
    ensures
        secret_len(u, 0) == 0,
{
    reveal_strlit("Bearer");
    reveal_strlit("eyJ");
    assert(!is_hex(u[0int + 0int]));
    if u.len() >= 6 {
        assert(u.subrange(0, 6)[0] == '#');
    }
    if u.len() >= 3 {
        assert(u.subrange(0, 3)[0] == '#');
    }
    assert(run_end(u, 0, local()) == 0);
}

proof fn lemma_run_end_ge(s: Seq<char>, i: int, k: int, c: spec_fn(char) -> bool)
    requires
        0 <= i <= k <= s.len(),
        forall|j: int| i <= j < k ==> c(#[trigger] s[j]),
    ensures
        run_end(s, i, c) >= k,
    decreases k - i,
{
    if i < k {
        assert(c(s[i]));
        lemma_run_end_ge(s, i + 1, k, c);
    } else {
        lemma_run_end_le(s, k, c);
    }
}

proof fn lemma_last_tld_ge(s: Seq<char>, lo: int, hi: int, k: int)
    requires
        lo <= k <= hi,
        tld_at(s, k),
    ensures
        last_tld(s, lo, hi) >= k,
    decreases hi - lo + 1,
{
    if hi > k && !tld_at(s, hi) {
        lemma_last_tld_ge(s, lo, hi - 1, k);
    }
}

/// A text that agrees with `v` up to `w`, where it holds a `#` and `v` a
/// character that is not whitespace (or where both end), starts with a
/// secret only if `v` does.
proof fn lemma_no_new_match(u: Seq<char>, v: Seq<char>, w: int)
    requires
        0 <= w <= u.len(),
        w <= v.len(),
        u.take(w) == v.take(w),
        (w == u.len() && w == v.len()) || (w < u.len() && u[w] == '#' && w < v.len() && !is_ws(v[w])),
        secret_len(u, 0) > 0,
    ensures
        secret_len(v, 0) > 0,
{
    reveal_strlit("Bearer");
    reveal_strlit("eyJ");
    assert forall|i: int| 0 <= i < w implies #[trigger] u[i] == v[i] by {
        assert(u.take(w)[i] == u[i]);
        assert(v.take(w)[i] == v[i]);
        assert(u.take(w)[i] == v.take(w)[i]);
    }
    if w == u.len() {
        assert(u =~= v);
        return;
    }
    if mac_at(u, 0) {
        if w < 17 {
            assert(u[0 + w] == '#');
        }
        assert forall|i: int| 0 <= i < 17 implies if i % 3 == 2 {
            #[trigger] v[0 + i] == ':'
        } else {
            is_hex(v[0 + i])
        } by {
            assert(u[0 + i] == v[i]);
        }
        assert(mac_at(v, 0));
    } else if bearer_end(u, 0) > 0 {
        let b = run_end(u, 6, ws());
        lemma_run_end_bounds(u, 6, ws());
        lemma_run_end_le(u, b, non_ws());
        assert(b < u.len() && !is_ws(u[b]));
        assert forall|j: int| 0 <= j < b implies #[trigger] u[j] != '#' by {
            if j < 6 {
                assert(u[j] == u.subrange(0, 6)[j]);
            } else {
                assert(is_ws(u[j]));
            }
        }
        assert(w >= b);
        assert(v.subrange(0, 6) =~= u.subrange(0, 6));
        assert forall|j: int| 6 <= j < b implies ws()(#[trigger] v[j]) by {
            assert(is_ws(u[j]));
        }
        if b < w {
            assert(v[b] == u[b]);
        }
        lemma_run_end(v, 6, b, ws());
        assert(b < v.len());
        assert(non_ws()(v[b]));
        lemma_run_end_le(v, b + 1, non_ws());
        assert(run_end(v, b, non_ws()) > b);
        assert(bearer_end(v, 0) > 0);
    } else if jwt_end(u, 0) > 0 {
        let a = run_end(u, 3, jwt());
        lemma_run_end_bounds(u, 3, jwt());
        assert(a < u.len() && u[a] == '.');
        assert(a + 1 < u.len() && is_jwt(u[a + 1]));
        assert forall|j: int| 0 <= j < a + 2 implies #[trigger] u[j] != '#' by {
            if j < 3 {
                assert(u[j] == u.subrange(0, 3)[j]);
            } else if j < a {
                assert(is_jwt(u[j]));
            }
        }
        assert(w >= a + 2);
        assert(v.subrange(0, 3) =~= u.subrange(0, 3));
        assert forall|j: int| 3 <= j < a implies jwt()(#[trigger] v[j]) by {
            assert(is_jwt(u[j]));
        }
        assert(v[a] == u[a]);
        assert(v[a + 1] == u[a + 1]);
        lemma_run_end(v, 3, a, jwt());
        assert(a + 1 < v.len() && jwt()(v[a + 1]));
        lemma_run_end_le(v, a + 2, jwt());
        assert(run_end(v, a + 1, jwt()) > a + 1);
        assert(jwt_end(v, 0) > 0);
    } else {
        assert(email_end(u, 0) > 0);
        let q = run_end(u, 0, local());
        lemma_run_end_bounds(u, 0, local());
        let e = run_end(u, q + 1, domain());
        lemma_run_end_bounds(u, q + 1, domain());
        let k = last_tld(u, q + 2, e - 1);
        lemma_last_tld(u, q + 2, e - 1);
        assert(q + 2 <= k <= e - 1 && tld_at(u, k));
        lemma_run_end_bounds(u, k + 1, alpha());
        assert(is_alpha(u[k + 1]) && is_alpha(u[k + 2]));
        assert forall|j: int| 0 <= j < e implies #[trigger] u[j] != '#' by {
            if j < q {
                assert(is_local(u[j]));
            } else if j > q {
                assert(is_domain(u[j]));
            }
        }
        assert(e >= k + 3) by {
            if e <= k + 2 {
                assert(!is_domain(u[e]));
            }
        }
        assert(w >= e);
        assert forall|j: int| 0 <= j < q implies local()(#[trigger] v[j]) by {
            assert(is_local(u[j]));
        }
        assert(v[q] == u[q]);
        lemma_run_end(v, 0, q, local());
        assert forall|j: int| q + 1 <= j < e implies domain()(#[trigger] v[j]) by {
            assert(is_domain(u[j]));
        }
        lemma_run_end_ge(v, q + 1, e, domain());
        let ev = run_end(v, q + 1, domain());
        assert(v[k] == u[k] && v[k + 1] == u[k + 1] && v[k + 2] == u[k + 2]);
        assert forall|j: int| k + 1 <= j < k + 3 implies alpha()(#[trigger] v[j]) by {}
        lemma_run_end_ge(v, k + 1, k + 3, alpha());
        assert(tld_at(v, k));
        lemma_run_end_le(v, q + 1, domain());
        lemma_last_tld_ge(v, q + 2, ev - 1, k);
        let kv = last_tld(v, q + 2, ev - 1);
        lemma_last_tld(v, q + 2, ev - 1);
        lemma_run_end_le(v, kv + 1, alpha());
        assert(email_end(v, 0) > 0);
    }
}

/// A redacted suffix agrees with the original suffix up to its first
/// replacement, where the original holds the start of a match.
proof fn lemma_redacted_prefix(s: Seq<char>, pos: int) -> (w: int)
    requires
        0 <= pos <= s.len(),
    ensures
        ({
            let u = replaced(s, pos, secrets());
            let v = s.skip(pos);
            &&& 0 <= w <= u.len()
            &&& w <= v.len()
            &&& u.take(w) == v.take(w)
            &&& (w == u.len() && w == v.len()) || (w < u.len() && u[w] == '#' && w < v.len() && !is_ws(
                v[w],
            ))
        }),
    decreases s.len() - pos,
{
    let u = replaced(s, pos, secrets());
    let v = s.skip(pos);
    if pos >= s.len() {
        assert(u.len() == 0 && v.len() == 0);
        assert(u.take(0) =~= v.take(0));
        0
    } else if secret_len(s, pos) > 0 && pos + secret_len(s, pos) <= s.len() {
        assert(u[0] == '#');
        lemma_match_start(s, pos);
        assert(v[0] == s[pos]);
        assert(u.take(0) =~= v.take(0));
        0
    } else {
        let w1 = lemma_redacted_prefix(s, pos + 1);
        let rest = replaced(s, pos + 1, secrets());
        let v1 = s.skip(pos + 1);
        assert(u == seq![s[pos]] + rest);
        assert(v =~= seq![s[pos]] + v1);
        assert(u.take(w1 + 1) =~= v.take(w1 + 1)) by {
            assert forall|i: int| 0 <= i < w1 + 1 implies #[trigger] u.take(w1 + 1)[i] == v.take(w1 + 1)[i] by {
                if i > 0 {
                    assert(rest.take(w1)[i - 1] == v1.take(w1)[i - 1]);
                }
            }
        }
        w1 + 1
    }
}

/// No secret match starts anywhere in a redacted text.
proof fn lemma_no_secret_left(s: Seq<char>, pos: int)
    requires
        0 <= pos <= s.len(),
    ensures
        forall|i: int|
            0 <= i < replaced(s, pos, secrets()).len() ==> #[trigger] secret_len(replaced(s, pos, secrets()), i)
                == 0,
    decreases s.len() - pos,
{
    let u = replaced(s, pos, secrets());
    if pos < s.len() {
        let hit = secret_len(s, pos) > 0 && pos + secret_len(s, pos) <= s.len();
        let next = if hit {
            pos + secret_len(s, pos)
        } else {
            pos + 1
        };
        lemma_no_secret_left(s, next);
        let rest = replaced(s, next, secrets());
        assert(u == seq![if hit {
            '#'
        } else {
            s[pos]
        }] + rest);
        assert forall|i: int| 0 <= i < u.len() implies #[trigger] secret_len(u, i) == 0 by {
            if i > 0 {
                lemma_secret_local(u, i);
                lemma_secret_local(rest, i - 1);
                assert(u.skip(i) =~= rest.skip(i - 1));
                assert(secret_len(rest, i - 1) == 0);
            } else if hit {
                lemma_hash_starts_nothing(u);
            } else {
                let w = lemma_redacted_prefix(s, pos);
                lemma_secret_local(s, pos);
                lemma_secret_fits(s, pos);
                if secret_len(u, 0) > 0 {
                    lemma_no_new_match(u, s.skip(pos), w);
                }
            }
        }
    }
}

/// Redacting twice is redacting once: the `#` that replaces a secret never
/// forms a new MAC address, Bearer token, JWT-like blob or email.
pub proof fn redact_is_idempotent(m: Seq<char>)
    ensures
        replaced(replaced(m, 0, secrets()), 0, secrets()) == replaced(m, 0, secrets()),
{
    let u = replaced(m, 0, secrets());
    lemma_no_secret_left(m, 0);
    assert forall|p: int| 0 <= p < u.len() implies #[trigger] secret_len(u, p) == 0 by {}
    redact_keeps_text_without_secrets(u);
}

// ---------------------------------------------------------------------------
// Hashing
// ---------------------------------------------------------------------------

/// Name for the SHA-256 digest that `sha2::Sha256` computes for `data`.
pub uninterp spec fn sha256(data: Seq<u8>) -> Seq<u8>;

/// Calls `Digest::digest` of `sha2::Sha256` on `data`. The contract claims
/// that the result is `sha256` of the bytes, and that it is 32 bytes long
/// (the output size of SHA-256).
#[verifier::external_body]
fn sha256_digest(data: &[u8]) -> (r: Vec<u8>)
    ensures
        r@ == sha256(data@),
        r@.len() == 32,
{
    sha2::Sha256::digest(data).to_vec()
}

/// The lower-case hexadecimal digit for `d < 16`.
pub open spec fn hex_char(d: nat) -> char {
    if d < 10 {
        ((d + 48) as u32) as char
    } else {
        ((d + 87) as u32) as char
    }
}

/// The bytes in lower-case hexadecimal, two digits each (as `{:x}` formats a
/// digest).
pub open spec fn hex_of(b: Seq<u8>) -> Seq<char>
    decreases b.len(),
{
    if b.len() == 0 {
        seq![]
    } else {
        hex_of(b.drop_last()) + seq![hex_char((b.last() / 16) as nat), hex_char((b.last() % 16) as nat)]
    }
}

fn hex_char_exec(d: u8) -> (r: char)
    requires
        d < 16,
    ensures
        r == hex_char(d as nat),
{
    if d < 10 {
        (d + 48) as char
    } else {
        (d + 87) as char
    }
}

fn hex_string(b: &Vec<u8>) -> (r: Vec<char>)
    ensures
        r@ == hex_of(b@),
{
    let mut out: Vec<char> = Vec::new();
    let mut i: usize = 0;
    assert(b@.take(0) =~= Seq::<u8>::empty());
    while i < b.len()
        invariant
            i <= b@.len(),
            out@ == hex_of(b@.take(i as int)),
        decreases b@.len() - i,
    {
        assert(b@.take(i + 1).drop_last() =~= b@.take(i as int));
        out.push(hex_char_exec(b[i] / 16));
        out.push(hex_char_exec(b[i] % 16));
        i = i + 1;
        assert(out@ =~= hex_of(b@.take(i as int)));
    }
    assert(b@.take(i as int) =~= b@);
    out
}

proof fn lemma_hex_len(b: Seq<u8>)
    ensures
        hex_of(b).len() == 2 * b.len(),
    decreases b.len(),
{
    if b.len() > 0 {
        lemma_hex_len(b.drop_last());
    }
}

/// A lower-case hexadecimal digit.
pub open spec fn is_lower_hex(c: char) -> bool {
    ('0' <= c && c <= '9') || ('a' <= c && c <= 'f')
}

proof fn lemma_hex_char(d: nat)
    requires
        d < 16,
    ensures
        is_lower_hex(hex_char(d)),
{
    if d < 10 {
        assert(((d + 48) as u32) as char == hex_char(d));
        assert('0' <= hex_char(d) && hex_char(d) <= '9');
    } else {
        assert('a' <= hex_char(d) && hex_char(d) <= 'f');
    }
}

proof fn lemma_hex_chars(b: Seq<u8>)
    ensures
        forall|i: int| 0 <= i < hex_of(b).len() ==> is_lower_hex(#[trigger] hex_of(b)[i]),
    decreases b.len(),
{
    if b.len() > 0 {
        lemma_hex_chars(b.drop_last());
        lemma_hex_char((b.last() / 16) as nat);
        lemma_hex_char((b.last() % 16) as nat);
        let h = hex_of(b.drop_last());
        assert forall|i: int| 0 <= i < hex_of(b).len() implies is_lower_hex(#[trigger] hex_of(b)[i]) by {
            if i < h.len() {
                assert(hex_of(b)[i] == h[i]);
            }
        }
    }
}

/// The UTF-8 bytes of `s`.
fn utf8_bytes(s: &str) -> (r: Vec<u8>)
    ensures
        r@ == vstd::utf8::encode_utf8(s@),
{
    vstd::slice::slice_to_vec(s.as_bytes())
}

/// The fingerprint of a log line: the first 16 hexadecimal digits of the
/// SHA-256 of its tag, `|`, and its message with noise collapsed.
pub open spec fn fingerprint_spec(tag: Seq<char>, message: Seq<char>) -> Seq<char> {
    hex_of(
        sha256(
            vstd::utf8::encode_utf8(tag) + seq![124u8] + vstd::utf8::encode_utf8(
                replaced(message, 0, noise()),
            ),
        ),
    ).take(16)
}

/// Generates a 16-hex key from a logcat tag and a noise-stripped message,
/// as `fingerprint_spec` says.
pub fn generate_fingerprint(tag: &str, message: &str) -> (r: String)
    ensures
        r@ == fingerprint_spec(tag@, message@),
        r@.len() == 16,
        forall|i: int| 0 <= i < 16 ==> is_lower_hex(#[trigger] r@[i]),
{
    let collapsed = collapse_noise(message);
    let mut data = utf8_bytes(tag);
    data.push(124u8);
    let rest = utf8_bytes(collapsed.as_str());
    let mut i: usize = 0;
    let ghost base = data@;
    while i < rest.len()
        invariant
            i <= rest@.len(),
            data@ == base + rest@.take(i as int),
        decreases rest@.len() - i,
    {
        data.push(rest[i]);
        i = i + 1;
        assert(data@ =~= base + rest@.take(i as int));
    }
    assert(rest@.take(i as int) =~= rest@);
    let digest = sha256_digest(data.as_slice());
    let h = hex_string(&digest);
    proof {
        lemma_hex_len(digest@);
        lemma_hex_chars(digest@);
    }
    let first = vstd::slice::slice_subrange(h.as_slice(), 0, 16);
    assert(first@ =~= h@.take(16));
    assert(data@ =~= vstd::utf8::encode_utf8(tag@) + seq![124u8] + vstd::utf8::encode_utf8(
        replaced(message@, 0, noise()),
    ));
    string_of(first)
}

/// Two messages of one tag that differ only in noise (numbers, paths,
/// hexadecimal numbers) have the same fingerprint.
pub proof fn fingerprint_ignores_noise(tag: Seq<char>, a: Seq<char>, b: Seq<char>)
    requires
        replaced(a, 0, noise()) == replaced(b, 0, noise()),
    ensures
        fingerprint_spec(tag, a) == fingerprint_spec(tag, b),
{
}

proof fn lemma_occurs_shift(s: Seq<char>, k: int, j: int, lit: Seq<char>)
    requires
        0 <= k <= s.len(),
        0 <= j,
    ensures
        occurs_at(s, lit, k + j) == occurs_at(s.skip(k), lit, j),
{
    if k + j + lit.len() <= s.len() {
        assert(s.subrange(k + j, k + j + lit.len()) =~= s.skip(k).subrange(j, j + lit.len()));
    }
}

/// Past a shared tail, the noise found depends only on the tail and on
/// whether the character before it is a word character.
proof fn lemma_noise_on_tail(s1: Seq<char>, k1: int, s2: Seq<char>, k2: int, j: int)
    requires
        0 < k1 <= s1.len(),
        0 < k2 <= s2.len(),
        0 <= j,
        s1.skip(k1) == s2.skip(k2),
        j > 0 || word_char(s1[k1 - 1]) == word_char(s2[k2 - 1]) || k1 == s1.len() || !is_decimal(s1[k1]),
    ensures
        noise_len(s1, k1 + j) == noise_len(s2, k2 + j),
{
    let t = s1.skip(k1);
    assert(s1.len() - k1 == s2.len() - k2) by {
        assert(t.len() == s2.skip(k2).len());
    }
    if k1 < s1.len() {
        assert(s1[k1] == t[0]);
        assert(s2[k2] == s2.skip(k2)[0]);
    }
    lemma_occurs_shift(s1, k1, j, "0x"@);
    lemma_occurs_shift(s2, k2, j, "0x"@);
    lemma_run_end_shift(s1, k1, j + 2, hex());
    lemma_run_end_shift(s2, k2, j + 2, hex());
    lemma_run_end_shift(s1, k1, j + 1, non_ws());
    lemma_run_end_shift(s2, k2, j + 1, non_ws());
    lemma_run_end_shift(s1, k1, j, digit());
    lemma_run_end_shift(s2, k2, j, digit());
    lemma_run_end_le(t, j, digit());
    if k1 + j < s1.len() {
        assert(s1[k1 + j] == t[j]);
        assert(s2[k2 + j] == s2.skip(k2)[j]);
    }
    if j > 0 && k1 + j <= s1.len() {
        assert(s1[k1 + j - 1] == t[j - 1]);
        assert(s2[k2 + j - 1] == s2.skip(k2)[j - 1]);
    }
    let d = run_end(t, j, digit());
    if j < d {
        assert(s1[k1 + d - 1] == t[d - 1]);
        assert(s2[k2 + d - 1] == s2.skip(k2)[d - 1]);
        if d < t.len() {
            assert(s1[k1 + d] == t[d]);
            assert(s2[k2 + d] == s2.skip(k2)[d]);
        }
    }
}

/// Past a shared tail, collapsing gives the same text.
proof fn lemma_collapse_on_tail(s1: Seq<char>, k1: int, s2: Seq<char>, k2: int, j: int)
    requires
        0 < k1 <= s1.len(),
        0 < k2 <= s2.len(),
        0 <= j,
        s1.skip(k1) == s2.skip(k2),
        word_char(s1[k1 - 1]) == word_char(s2[k2 - 1]) || k1 == s1.len() || !is_decimal(s1[k1]),
    ensures
        replaced(s1, k1 + j, noise()) == replaced(s2, k2 + j, noise()),
    decreases s1.len() - k1 - j,
{
    let t = s1.skip(k1);
    assert(s1.len() - k1 == s2.len() - k2) by {
        assert(t.len() == s2.skip(k2).len());
    }
    if k1 + j < s1.len() {
        lemma_noise_on_tail(s1, k1, s2, k2, j);
        let n = noise_len(s1, k1 + j);
        assert(s1[k1 + j] == s1.skip(k1)[j]);
        assert(s2[k2 + j] == s2.skip(k2)[j]);
        if n > 0 && k1 + j + n <= s1.len() {
            lemma_collapse_on_tail(s1, k1, s2, k2, j + n);
        } else {
            lemma_collapse_on_tail(s1, k1, s2, k2, j + 1);
        }
    }
}

/// Where no noise starts before `m`, collapsing keeps the first `m`
/// characters.
proof fn lemma_collapse_keeps_prefix(s: Seq<char>, pos: int, m: int)
    requires
        0 <= pos <= m <= s.len(),
        forall|p: int| pos <= p < m ==> #[trigger] noise_len(s, p) == 0,
    ensures
        replaced(s, pos, noise()) == s.subrange(pos, m) + replaced(s, m, noise()),
    decreases m - pos,
{
    if pos < m {
        assert(noise_len(s, pos) == 0);
        lemma_collapse_keeps_prefix(s, pos + 1, m);
        assert(seq![s[pos]] + s.subrange(pos + 1, m) =~= s.subrange(pos, m));
    } else {
        assert(s.subrange(pos, m) =~= Seq::<char>::empty());
    }
}

/// Where the text before a match holds no digit and no `/`, collapsing
/// keeps that text and turns the match into one `#`.
proof fn lemma_match_after_clean(a: Seq<char>, x: Seq<char>, b: Seq<char>)
    requires
        x.len() > 0,
        forall|j: int| 0 <= j < a.len() ==> #[trigger] a[j] != '/' && !is_decimal(a[j]),
        noise_len(a + x + b, a.len() as int) == x.len(),
    ensures
        replaced(a + x + b, 0, noise()) == a + seq!['#'] + replaced(a + x + b, (a.len() + x.len()) as int, noise()),
{
    let s = a + x + b;
    let m = a.len() as int;
    reveal_strlit("0x");
    assert("0x"@[0] == '0' && "0x"@[1] == 'x');
    assert forall|p: int| 0 <= p < m implies #[trigger] noise_len(s, p) == 0 by {
        assert(s[p] == a[p]);
        if occurs_at(s, "0x"@, p) {
            assert(s.subrange(p, p + 2)[0] == s[p]);
        }
        lemma_run_end(s, p, p, digit());
    }
    lemma_collapse_keeps_prefix(s, 0, m);
    assert(s.subrange(0, m) =~= a);
}

/// A whole number standing after `a` collapses to one `#`.
proof fn lemma_whole_number(a: Seq<char>, d: Seq<char>, b: Seq<char>)
    requires
        d.len() > 0,
        forall|j: int| 0 <= j < d.len() ==> is_decimal(#[trigger] d[j]) && word_char(d[j]),
        forall|j: int| 0 <= j < a.len() ==> #[trigger] a[j] != '/' && !is_decimal(a[j]),
        a.len() == 0 || !word_char(a.last()),
        b.len() == 0 || (!word_char(b[0]) && !is_decimal(b[0]) && b[0] != 'x'),
    ensures
        replaced(a + d + b, 0, noise()) == a + seq!['#'] + replaced(a + d + b, (a.len() + d.len()) as int, noise()),
{
    let s = a + d + b;
    let m = a.len() as int;
    let e = m + d.len();
    reveal_strlit("0x");
    assert("0x"@[0] == '0' && "0x"@[1] == 'x');
    assert forall|j: int| m <= j < e implies digit()(#[trigger] s[j]) by {
        assert(s[j] == d[j - m]);
    }
    if e < s.len() {
        assert(s[e] == b[0]);
    }
    lemma_run_end(s, m, e, digit());
    assert(s[m] == d[0]);
    assert(s[e - 1] == d[d.len() - 1]);
    if m > 0 {
        assert(s[m - 1] == a.last());
    }
    assert(word_boundary(s, m));
    assert(word_boundary(s, e));
    if occurs_at(s, "0x"@, m) {
        assert(s.subrange(m, m + 2)[1] == s[m + 1]);
        if d.len() > 1 {
            assert(s[m + 1] == d[1]);
        } else {
            assert(s[m + 1] == b[0]);
        }
    }
    assert(noise_len(s, m) == d.len());
    lemma_match_after_clean(a, d, b);
}

/// A whole decimal number (digits with no word character on either side) is
/// noise whatever its digits: collapsing turns it into a single `#`, so two
/// texts that differ only in such a number collapse alike, and their
/// fingerprints agree. The text before the number holds no digits and no
/// `/` (so no noise starts there), and the character after it is neither a
/// word character, a digit, nor `x` (digits and `x` are word characters too;
/// the crate knows word characters through `word_char` alone).
pub proof fn whole_numbers_collapse_alike(a: Seq<char>, d1: Seq<char>, d2: Seq<char>, b: Seq<char>)
    requires
        d1.len() > 0,
        d2.len() > 0,
        forall|j: int| 0 <= j < d1.len() ==> is_decimal(#[trigger] d1[j]) && word_char(d1[j]),
        forall|j: int| 0 <= j < d2.len() ==> is_decimal(#[trigger] d2[j]) && word_char(d2[j]),
        forall|j: int| 0 <= j < a.len() ==> #[trigger] a[j] != '/' && !is_decimal(a[j]),
        a.len() == 0 || !word_char(a.last()),
        b.len() == 0 || (!word_char(b[0]) && !is_decimal(b[0]) && b[0] != 'x'),
    ensures
        replaced(a + d1 + b, 0, noise()) == a + seq!['#'] + replaced(a + d1 + b, (a.len() + d1.len()) as int, noise()),
        replaced(a + d1 + b, 0, noise()) == replaced(a + d2 + b, 0, noise()),
        forall|tag: Seq<char>| #[trigger] fingerprint_spec(tag, a + d1 + b) == fingerprint_spec(tag, a + d2 + b),
{
    let s1 = a + d1 + b;
    let s2 = a + d2 + b;
    lemma_whole_number(a, d1, b);
    lemma_whole_number(a, d2, b);
    let k1 = (a.len() + d1.len()) as int;
    let k2 = (a.len() + d2.len()) as int;
    assert(s1.skip(k1) =~= b);
    assert(s2.skip(k2) =~= b);
    assert(s1[k1 - 1] == d1[d1.len() - 1]);
    assert(s2[k2 - 1] == d2[d2.len() - 1]);
    lemma_collapse_on_tail(s1, k1, s2, k2, 0);
    assert forall|tag: Seq<char>| #[trigger] fingerprint_spec(tag, s1) == fingerprint_spec(tag, s2) by {
        fingerprint_ignores_noise(tag, s1, s2);
    }
}

/// A hexadecimal number `0x` followed by hexadecimal digits is noise
/// whatever its digits: collapsing turns it into a single `#`, so two texts
/// that differ only in such a number collapse alike, and their fingerprints
/// agree. The text before the number holds no digits and no `/` (so no
/// noise starts there), and the character after it is neither a
/// hexadecimal nor a decimal digit.
pub proof fn hex_numbers_collapse_alike(a: Seq<char>, h1: Seq<char>, h2: Seq<char>, b: Seq<char>)
    requires
        h1.len() > 0,
        h2.len() > 0,
        forall|j: int| 0 <= j < h1.len() ==> ('0' <= #[trigger] h1[j] <= '9') || ('a' <= h1[j] <= 'f') || ('A'
            <= h1[j] <= 'F'),
        forall|j: int| 0 <= j < h2.len() ==> ('0' <= #[trigger] h2[j] <= '9') || ('a' <= h2[j] <= 'f') || ('A'
            <= h2[j] <= 'F'),
        forall|j: int| 0 <= j < a.len() ==> #[trigger] a[j] != '/' && !is_decimal(a[j]),
        b.len() == 0 || (!is_hex(b[0]) && !is_decimal(b[0])),
    ensures
        replaced(a + "0x"@ + h1 + b, 0, noise()) == a + seq!['#'] + replaced(
            a + "0x"@ + h1 + b,
            (a.len() + 2 + h1.len()) as int,
            noise(),
        ),
        replaced(a + "0x"@ + h1 + b, 0, noise()) == replaced(a + "0x"@ + h2 + b, 0, noise()),
        forall|tag: Seq<char>| #[trigger] fingerprint_spec(tag, a + "0x"@ + h1 + b) == fingerprint_spec(
            tag,
            a + "0x"@ + h2 + b,
        ),
{
    reveal_strlit("0x");
    lemma_hex_match(a, h1, b);
    lemma_hex_match(a, h2, b);
    let s1 = a + "0x"@ + h1 + b;
    let s2 = a + "0x"@ + h2 + b;
    let k1 = (a.len() + 2 + h1.len()) as int;
    let k2 = (a.len() + 2 + h2.len()) as int;
    assert(s1.skip(k1) =~= b);
    assert(s2.skip(k2) =~= b);
    if b.len() > 0 {
        assert(s1[k1] == b[0]);
    }
    lemma_collapse_on_tail(s1, k1, s2, k2, 0);
    assert forall|tag: Seq<char>| #[trigger] fingerprint_spec(tag, s1) == fingerprint_spec(tag, s2) by {
        fingerprint_ignores_noise(tag, s1, s2);
    }
}

proof fn lemma_hex_match(a: Seq<char>, h: Seq<char>, b: Seq<char>)
    requires
        h.len() > 0,
        forall|j: int| 0 <= j < h.len() ==> ('0' <= #[trigger] h[j] <= '9') || ('a' <= h[j] <= 'f') || ('A'
            <= h[j] <= 'F'),
        forall|j: int| 0 <= j < a.len() ==> #[trigger] a[j] != '/' && !is_decimal(a[j]),
        b.len() == 0 || !is_hex(b[0]),
    ensures
        replaced(a + "0x"@ + h + b, 0, noise()) == a + seq!['#'] + replaced(
            a + "0x"@ + h + b,
            (a.len() + 2 + h.len()) as int,
            noise(),
        ),
{
    reveal_strlit("0x");
    let x = "0x"@ + h;
    let s = a + x + b;
    assert(a + "0x"@ + h + b =~= s);
    let m = a.len() as int;
    let e = m + x.len();
    assert(s.subrange(m, m + 2) =~= "0x"@);
    assert(occurs_at(s, "0x"@, m));
    assert forall|j: int| m + 2 <= j < e implies hex()(#[trigger] s[j]) by {
        assert(s[j] == h[j - m - 2]);
    }
    if e < s.len() {
        assert(s[e] == b[0]);
    }
    lemma_run_end(s, m + 2, e, hex());
    assert(noise_len(s, m) == x.len());
    lemma_match_after_clean(a, x, b);
}

/// A path, `/` followed by characters other than whitespace, is noise
/// whatever it names: collapsing turns it into a single `#`, so two texts
/// that differ only in such a path collapse alike, and their fingerprints
/// agree. The text before the path holds no digits and no `/` (so no noise
/// starts there), and the path ends the text or is followed by whitespace.
pub proof fn paths_collapse_alike(a: Seq<char>, w1: Seq<char>, w2: Seq<char>, b: Seq<char>)
    requires
        w1.len() > 0,
        w2.len() > 0,
        forall|j: int| 0 <= j < w1.len() ==> !is_ws(#[trigger] w1[j]),
        forall|j: int| 0 <= j < w2.len() ==> !is_ws(#[trigger] w2[j]),
        forall|j: int| 0 <= j < a.len() ==> #[trigger] a[j] != '/' && !is_decimal(a[j]),
        b.len() == 0 || is_ws(b[0]),
    ensures
        replaced(a + seq!['/'] + w1 + b, 0, noise()) == a + seq!['#'] + replaced(
            a + seq!['/'] + w1 + b,
            (a.len() + 1 + w1.len()) as int,
            noise(),
        ),
        replaced(a + seq!['/'] + w1 + b, 0, noise()) == replaced(a + seq!['/'] + w2 + b, 0, noise()),
        forall|tag: Seq<char>| #[trigger] fingerprint_spec(tag, a + seq!['/'] + w1 + b) == fingerprint_spec(
            tag,
            a + seq!['/'] + w2 + b,
        ),
{
    lemma_path_match(a, w1, b);
    lemma_path_match(a, w2, b);
    let s1 = a + seq!['/'] + w1 + b;
    let s2 = a + seq!['/'] + w2 + b;
    let k1 = (a.len() + 1 + w1.len()) as int;
    let k2 = (a.len() + 1 + w2.len()) as int;
    assert(s1.skip(k1) =~= b);
    assert(s2.skip(k2) =~= b);
    if b.len() > 0 {
        assert(s1[k1] == b[0]);
    }
    lemma_collapse_on_tail(s1, k1, s2, k2, 0);
    assert forall|tag: Seq<char>| #[trigger] fingerprint_spec(tag, s1) == fingerprint_spec(tag, s2) by {
        fingerprint_ignores_noise(tag, s1, s2);
    }
}

proof fn lemma_path_match(a: Seq<char>, w: Seq<char>, b: Seq<char>)
    requires
        w.len() > 0,
        forall|j: int| 0 <= j < w.len() ==> !is_ws(#[trigger] w[j]),
        forall|j: int| 0 <= j < a.len() ==> #[trigger] a[j] != '/' && !is_decimal(a[j]),
        b.len() == 0 || is_ws(b[0]),
    ensures
        replaced(a + seq!['/'] + w + b, 0, noise()) == a + seq!['#'] + replaced(
            a + seq!['/'] + w + b,
            (a.len() + 1 + w.len()) as int,
            noise(),
        ),
{
    reveal_strlit("0x");
    assert("0x"@[0] == '0');
    let x = seq!['/'] + w;
    let s = a + x + b;
    assert(a + seq!['/'] + w + b =~= s);
    let m = a.len() as int;
    let e = m + x.len();
    assert(s[m] == '/');
    if occurs_at(s, "0x"@, m) {
        assert(s.subrange(m, m + 2)[0] == s[m]);
    }
    assert forall|j: int| m + 1 <= j < e implies non_ws()(#[trigger] s[j]) by {
        assert(s[j] == w[j - m - 1]);
    }
    if e < s.len() {
        assert(s[e] == b[0]);
    }
    lemma_run_end(s, m + 1, e, non_ws());
    assert(noise_len(s, m) == x.len());
    lemma_match_after_clean(a, x, b);
}

/// A model name with every character that is not an ASCII letter or digit
/// replaced by `_`.
pub open spec fn sanitize_model(model: Seq<char>) -> Seq<char> {
    model.map_values(|c: char| if is_alpha(c) || ('0' <= c && c <= '9') { c } else { '_' })
}

/// The device label: the sanitized model, `:`, and the first 8 hexadecimal
/// digits of the SHA-256 of the serial.
pub open spec fn device_label_spec(model: Seq<char>, serial: Seq<char>) -> Seq<char> {
    sanitize_model(model) + seq![':'] + hex_of(sha256(vstd::utf8::encode_utf8(serial))).take(8)
}

/// Generates a stable, non-reversible device label from model and adb
/// serial, as `device_label_spec` says.
pub fn generate_device_label(model: &str, serial: &str) -> (r: String)
    ensures
        r@ == device_label_spec(model@, serial@),
        r@.len() == model@.len() + 9,
        r@.take(model@.len() as int) == sanitize_model(model@),
        r@[model@.len() as int] == ':',
        forall|i: int| model@.len() < i < r@.len() ==> is_lower_hex(#[trigger] r@[i]),
{
    let digest = sha256_digest(utf8_bytes(serial).as_slice());
    let h = hex_string(&digest);
    proof {
        lemma_hex_len(digest@);
        lemma_hex_chars(digest@);
    }
    let m = chars_of(model);
    let mut out: Vec<char> = Vec::new();
    let mut i: usize = 0;
    while i < m.len()
        invariant
            i <= m@.len(),
            m@ == model@,
            out@ == sanitize_model(model@).take(i as int),
        decreases m@.len() - i,
    {
        let c = m[i];
        let keep = ('A' <= c && c <= 'Z') || ('a' <= c && c <= 'z') || ('0' <= c && c <= '9');
        out.push(if keep {
            c
        } else {
            '_'
        });
        i = i + 1;
        assert(out@ =~= sanitize_model(model@).take(i as int));
    }
    assert(sanitize_model(model@).take(i as int) =~= sanitize_model(model@));
    out.push(':');
    let mut k: usize = 0;
    let ghost base = out@;
    while k < 8
        invariant
            k <= 8,
            h@.len() == 64,
            out@ == base + h@.take(k as int),
        decreases 8 - k,
    {
        out.push(h[k]);
        k = k + 1;
        assert(out@ =~= base + h@.take(k as int));
    }
    assert(out@ =~= device_label_spec(model@, serial@));
    assert(out@.take(model@.len() as int) =~= sanitize_model(model@));
    assert forall|i: int| model@.len() < i < out@.len() implies is_lower_hex(#[trigger] out@[i]) by {
        assert(out@[i] == h@[i - model@.len() - 1]);
    }
    string_of(out.as_slice())
}

} // verus!
