//! Layer-4 protocol traffic: TCP and UDP byte totals from
//! `dumpsys netstats --uid --tag`, and the packages of each uid.

use std::collections::HashMap;

use vstd::prelude::*;

use crate::adb::{arg_views, run_adb_for_serial, run_failed, serial_args, succeeded,
    CommandOutput, IoFailure};
use crate::error::AdbError;
use crate::poll::{backoff, backoff_interval, Interval};
use crate::scan::{
    digit, hex, is_hex, is_word_boundary, lemma_run_end_bounds, literal_at, non_ws, run_end,
    skip_digits, skip_hex, skip_non_ws, skip_ws_run, word_boundary, ws,
};
use crate::text::{
    all_digits, chars_of, digits_value, eq_str, has_prefix, is_ascii_digit, lines, lossy_utf8,
    occurs_at, parse_unsigned, parse_unsigned_exec, split_lines, starts_with, string_of, trim,
    trimmed, unsigned_digits, utf8_lossy,
};

verus! {

broadcast use vstd::std_specs::hash::group_hash_axioms;

/// Milliseconds between polls while they succeed.
pub const DEFAULT_POLL_MILLIS: u64 = 2000;

/// The longest wait between polls after failures, in milliseconds.
pub const MAX_BACKOFF_MILLIS: u64 = 5000;

/// How much longer each failed poll makes the wait, in milliseconds.
pub const BACKOFF_STEP_MILLIS: u64 = 1000;

/// Android framework tag for UDP traffic.
pub const TAG_UDP: u32 = 0xffff_fff1;

/// Android framework tag for TCP traffic.
pub const TAG_TCP: u32 = 0xffff_fff2;

/// Snapshot of layer-4 protocol traffic.
#[derive(Debug, Clone, PartialEq, Eq)]
pub struct ProtocolStats {
    pub tcp_bytes: u64,
    pub udp_bytes: u64,
    pub packages: HashMap<u32, Vec<String>>,
    pub timestamp: std::time::SystemTime,
}

/// Update from the protocol poller — either a successful snapshot or a transient error.
#[derive(Debug, Clone, PartialEq, Eq)]
pub enum ProtocolUpdate {
    Stats(ProtocolStats),
    Error(String),
}

/// The poll interval after a failed poll: one second longer, at most five.
pub fn next_backoff_interval(current: Interval) -> (r: Interval)
    ensures
        r.millis == backoff(current.millis as nat, BACKOFF_STEP_MILLIS as nat, MAX_BACKOFF_MILLIS as nat),
{
    backoff_interval(current, Interval::from_millis(BACKOFF_STEP_MILLIS), Interval::from_millis(MAX_BACKOFF_MILLIS))
}

/// What the poller does after a poll: the next wait (back to `interval` after
/// a success, backed off after a failure) and the update it sends.
pub fn after_poll(interval: Interval, current: Interval, fetched: Result<ProtocolStats, AdbError>) -> (r: (
    Interval,
    ProtocolUpdate,
))
    ensures
        match fetched {
            Ok(s) => r.0 == interval && r.1 == ProtocolUpdate::Stats(s),
            Err(e) => r.0.millis == backoff(current.millis as nat, BACKOFF_STEP_MILLIS as nat, MAX_BACKOFF_MILLIS as nat)
                && (r.1 matches ProtocolUpdate::Error(msg) && msg@ == e.user_message_spec()),
        },
{
    match fetched {
        Ok(s) => (interval, ProtocolUpdate::Stats(s)),
        Err(e) => (next_backoff_interval(current), ProtocolUpdate::Error(e.user_message())),
    }
}

// ---------------------------------------------------------------------------
// Numbers
// ---------------------------------------------------------------------------

/// What `str::parse::<i32>` gives: an optional `-` (or `+`) and ASCII digits
/// whose value fits in 32 bits.
pub open spec fn parse_i32(s: Seq<char>) -> Option<int> {
    if s.len() > 1 && s[0] == '-' {
        let d = s.drop_first();
        if all_digits(d) && digits_value(d) <= 0x8000_0000 {
            Some(-(digits_value(d) as int))
        } else {
            None
        }
    } else {
        match parse_unsigned(s, 0x7fff_ffff) {
            Some(v) => Some(v as int),
            None => None,
        }
    }
}

fn parse_i32_exec(s: &[char]) -> (r: Option<i32>)
    ensures
        match r {
            Some(v) => parse_i32(s@) == Some(v as int),
            None => parse_i32(s@) is None,
        },
{
    if s.len() > 1 && s[0] == '-' {
        let d = vstd::slice::slice_subrange(s, 1, s.len());
        assert(d@ =~= s@.drop_first());
        match parse_unsigned_exec(d, 0x8000_0000) {
            Some(v) => {
                assert(unsigned_digits(d@) == d@ || (d@.len() > 1 && d@[0] == '+'));
                if d.len() > 1 && d[0] == '+' {
                    assert(!is_ascii_digit(d@[0]));
                    assert(!all_digits(d@));
                    return None;
                }
                assert(unsigned_digits(d@) == d@);
                Some((0i64 - v as i64) as i32)
            },
            None => {
                if d.len() > 1 && d[0] == '+' {
                    assert(!is_ascii_digit(d@[0]));
                    assert(!all_digits(d@));
                } else {
                    assert(unsigned_digits(d@) == d@);
                }
                None
            },
        }
    } else {
        match parse_unsigned_exec(s, 0x7fff_ffff) {
            Some(v) => Some(v as i32),
            None => None,
        }
    }
}

/// The value of a string of ASCII hexadecimal digits.
pub open spec fn hex_value(d: Seq<char>) -> nat
    decreases d.len(),
{
    if d.len() == 0 {
        0
    } else {
        hex_value(d.drop_last()) * 16 + hex_digit(d.last())
    }
}

/// The value of one hexadecimal digit.
pub open spec fn hex_digit(c: char) -> nat {
    if '0' <= c && c <= '9' {
        (c as u32 - '0' as u32) as nat
    } else if 'a' <= c && c <= 'f' {
        (c as u32 - 'a' as u32 + 10) as nat
    } else {
        (c as u32 - 'A' as u32 + 10) as nat
    }
}

/// What `u32::from_str_radix(s, 16)` gives: an optional `+` and hexadecimal
/// digits whose value fits in 32 bits.
pub open spec fn parse_hex_u32(s: Seq<char>) -> Option<nat> {
    let d = unsigned_digits(s);
    if d.len() > 0 && (forall|i: int| 0 <= i < d.len() ==> is_hex(#[trigger] d[i])) && hex_value(d)
        <= u32::MAX {
        Some(hex_value(d))
    } else {
        None
    }
}

proof fn lemma_hex_value_take(d: Seq<char>, i: int, j: int)
    requires
        0 <= i <= j <= d.len(),
        forall|k: int| 0 <= k < d.len() ==> is_hex(#[trigger] d[k]),
    ensures
        hex_value(d.take(i)) <= hex_value(d.take(j)),
    decreases j - i,
{
    if i < j {
        lemma_hex_value_take(d, i, j - 1);
        assert(d.take(j).drop_last() =~= d.take(j - 1));
    }
}

fn hex_digit_exec(c: char) -> (r: u64)
    requires
        is_hex(c),
    ensures
        r as nat == hex_digit(c),
        r < 16,
{
    if '0' <= c && c <= '9' {
        (c as u32 - '0' as u32) as u64
    } else if 'a' <= c && c <= 'f' {
        (c as u32 - 'a' as u32 + 10) as u64
    } else {
        (c as u32 - 'A' as u32 + 10) as u64
    }
}

fn parse_hex_u32_exec(s: &[char]) -> (r: Option<u32>)
    ensures
        match r {
            Some(v) => parse_hex_u32(s@) == Some(v as nat),
            None => parse_hex_u32(s@) is None,
        },
{
    let mut start: usize = 0;
    if s.len() > 1 && s[0] == '+' {
        start = 1;
    }
    let ghost d = unsigned_digits(s@);
    assert(d =~= s@.skip(start as int));
    if start == s.len() {
        return None;
    }
    let mut k = start;
    let mut v: u64 = 0;
    assert(d.take(0) =~= Seq::<char>::empty());
    while k < s.len()
        invariant
            start <= k <= s@.len(),
            d == s@.skip(start as int),
            d == unsigned_digits(s@),
            d.len() == s@.len() - start,
            forall|j: int| 0 <= j < k - start ==> is_hex(#[trigger] d[j]),
            v as nat == hex_value(d.take(k - start)),
            v <= u32::MAX,
        decreases s@.len() - k,
    {
        if !(('0' <= s[k] && s[k] <= '9') || ('a' <= s[k] && s[k] <= 'f') || ('A' <= s[k] && s[k]
            <= 'F')) {
            assert(!is_hex(d[k - start]));
            return None;
        }
        let h = hex_digit_exec(s[k]);
        assert(d.take(k - start + 1).drop_last() =~= d.take(k - start));
        assert(d.take(k - start + 1).last() == s@[k as int]);
        let nv = v * 16 + h;
        if nv > u32::MAX as u64 {
            proof {
                if forall|j: int| 0 <= j < d.len() ==> is_hex(#[trigger] d[j]) {
                    lemma_hex_value_take(d, k - start + 1, d.len() as int);
                    assert(d.take(d.len() as int) =~= d);
                }
            }
            return None;
        }
        v = nv;
        k = k + 1;
    }
    assert(d.take(d.len() as int) =~= d);
    Some(v as u32)
}

// ---------------------------------------------------------------------------
// pm list packages -U
// ---------------------------------------------------------------------------

/// The name and uid digits of a line matching `^package:(\S+)\s+uid:(\d+)\s*$`.
pub open spec fn package_caps(t: Seq<char>) -> Option<(Seq<char>, Seq<char>)> {
    let b = run_end(t, 8, non_ws());
    let c = run_end(t, b, ws());
    let d = c + 4;
    let e = run_end(t, d, digit());
    if starts_with(t, "package:"@) && b > 8 && c > b && occurs_at(t, "uid:"@, c) && e > d && run_end(
        t,
        e,
        ws(),
    ) == t.len() {
        Some((t.subrange(8, b), t.subrange(d, e)))
    } else {
        None
    }
}

/// The package and uid of a `pm list packages -U` line (trimmed), when it
/// matches and its uid reads as an unsigned 32-bit number.
pub open spec fn package_entry(l: Seq<char>) -> Option<(Seq<char>, u32)> {
    match package_caps(trim(l)) {
        Some((name, uid)) => match parse_unsigned(uid, u32::MAX as nat) {
            Some(u) => Some((name, u as u32)),
            None => None,
        },
        None => None,
    }
}

/// The packages of each uid that the lines `ls` list, in order.
pub open spec fn packages_map(ls: Seq<Seq<char>>) -> Map<u32, Seq<Seq<char>>>
    decreases ls.len(),
{
    if ls.len() == 0 {
        Map::empty()
    } else {
        let m = packages_map(ls.drop_last());
        match package_entry(ls.last()) {
            Some((name, uid)) => m.insert(
                uid,
                if m.dom().contains(uid) {
                    m[uid]
                } else {
                    seq![]
                }.push(name),
            ),
            None => m,
        }
    }
}

/// The names in a map from uid to packages.
pub open spec fn names_view(m: Map<u32, Vec<String>>) -> Map<u32, Seq<Seq<char>>> {
    m.map_values(|v: Vec<String>| v@.map_values(|s: String| s@))
}

fn package_caps_exec(t: &[char]) -> (r: Option<(Vec<char>, Vec<char>)>)
    ensures
        match r {
            Some((a, b)) => package_caps(t@) == Some((a@, b@)),
            None => package_caps(t@) is None,
        },
{
    if !literal_at(t, "package:", 0) {
        proof {
            reveal_strlit("package:");
            assert(!starts_with(t@, "package:"@));
        }
        return None;
    }
    proof {
        reveal_strlit("package:");
        reveal_strlit("uid:");
    }
    assert(t@.len() == t.len());
    let b = skip_non_ws(t, 8);
    proof {
        lemma_run_end_bounds(t@, 8, non_ws());
    }
    if b == 8 {
        return None;
    }
    let c = skip_ws_run(t, b);
    proof {
        lemma_run_end_bounds(t@, b as int, ws());
    }
    if c == b || !literal_at(t, "uid:", c) {
        return None;
    }
    let d = c + 4;
    let e = skip_digits(t, d);
    proof {
        lemma_run_end_bounds(t@, d as int, digit());
    }
    if e == d {
        return None;
    }
    let f = skip_ws_run(t, e);
    if f != t.len() {
        return None;
    }
    let name = vstd::slice::slice_to_vec(vstd::slice::slice_subrange(t, 8, b));
    let uid = vstd::slice::slice_to_vec(vstd::slice::slice_subrange(t, d, e));
    Some((name, uid))
}

/// The packages of each uid that `pm list packages -U` text lists, as
/// `packages_map` says.
pub fn parse_package_uids(text: &str) -> (r: HashMap<u32, Vec<String>>)
    ensures
        names_view(r@) == packages_map(lines(text@)),
{
    let cs = chars_of(text);
    let ls = split_lines(cs.as_slice());
    let ghost all = lines(text@);
    let mut packages: HashMap<u32, Vec<String>> = HashMap::new();
    let mut i: usize = 0;
    assert(all.take(0) =~= Seq::<Seq<char>>::empty());
    assert(names_view(packages@) =~= packages_map(all.take(0)));
    while i < ls.len()
        invariant
            i <= ls@.len() == all.len(),
            all == lines(text@),
            forall|j: int| 0 <= j < ls@.len() ==> #[trigger] ls@[j]@ == all[j],
            names_view(packages@) == packages_map(all.take(i as int)),
        decreases ls@.len() - i,
    {
        let ghost l = all[i as int];
        assert(all.take(i + 1).drop_last() =~= all.take(i as int));
        assert(all.take(i + 1).last() == l);
        let t = trimmed(ls[i].as_slice());
        match package_caps_exec(t.as_slice()) {
            Some((name, uid_digits)) => {
                match parse_unsigned_exec(uid_digits.as_slice(), 0xffff_ffff) {
                    Some(u) => {
                        let uid = u as u32;
                        let ghost before = packages@;
                        let mut names = match packages.remove(&uid) {
                            Some(v) => v,
                            None => Vec::new(),
                        };
                        let ghost prev_names = names@;
                        names.push(string_of(name.as_slice()));
                        packages.insert(uid, names);
                        proof {
                            let m = packages_map(all.take(i as int));
                            assert(names_view(before) == m);
                            if before.dom().contains(uid) {
                                assert(prev_names.map_values(|s: String| s@) == m[uid]);
                            } else {
                                assert(prev_names.map_values(|s: String| s@) =~= Seq::<Seq<char>>::empty());
                            }
                            assert(names@.map_values(|s: String| s@) =~= prev_names.map_values(
                                |s: String| s@,
                            ).push(name@));
                            assert(names_view(packages@) =~= packages_map(all.take(i + 1)));
                        }
                    },
                    None => {},
                }
            },
            None => {},
        }
        i = i + 1;
    }
    assert(all.take(i as int) =~= all);
    packages
}

// ---------------------------------------------------------------------------
// dumpsys netstats --uid --tag
// ---------------------------------------------------------------------------

/// Should the bytes under an ident line count: only TCP and UDP tags, and
/// for the `ALL` set only the device-wide uid -1.
pub open spec fn should_count_spec(uid: int, set: Seq<char>, tag: Option<u32>) -> bool {
    match tag {
        None => false,
        Some(t) => if t != TAG_TCP && t != TAG_UDP {
            false
        } else if eq_ignore_ascii_case(set, "ALL"@) {
            uid == -1
        } else {
            true
        },
    }
}

/// ASCII lower case of a character.
pub open spec fn ascii_lower(c: char) -> char {
    if 'A' <= c && c <= 'Z' {
        ((c as u32) + 32) as char
    } else {
        c
    }
}

/// The strings are equal ignoring ASCII case.
pub open spec fn eq_ignore_ascii_case(a: Seq<char>, b: Seq<char>) -> bool {
    a.len() == b.len() && forall|i: int| 0 <= i < a.len() ==> ascii_lower(#[trigger] a[i])
        == ascii_lower(b[i])
}

fn ascii_lower_exec(c: char) -> (r: char)
    ensures
        r == ascii_lower(c),
{
    if 'A' <= c && c <= 'Z' {
        ((c as u8) + 32) as char
    } else {
        c
    }
}

pub fn eq_ignore_ascii_case_exec(a: &[char], b: &[char]) -> (r: bool)
    ensures
        r == eq_ignore_ascii_case(a@, b@),
{
    if a.len() != b.len() {
        return false;
    }
    let mut i: usize = 0;
    while i < a.len()
        invariant
            i <= a@.len() == b@.len(),
            forall|j: int| 0 <= j < i ==> ascii_lower(#[trigger] a@[j]) == ascii_lower(b@[j]),
        decreases a@.len() - i,
    {
        if ascii_lower_exec(a[i]) != ascii_lower_exec(b[i]) {
            return false;
        }
        i = i + 1;
    }
    true
}

/// Whether the bytes under an ident line with this uid, set and tag count.
pub fn should_count(uid: i32, set: &str, tag: Option<u32>) -> (r: bool)
    ensures
        r == should_count_spec(uid as int, set@, tag),
{
    let t = match tag {
        None => return false,
        Some(t) => t,
    };
    if t != TAG_TCP && t != TAG_UDP {
        return false;
    }
    let s = chars_of(set);
    let all = chars_of("ALL");
    if eq_ignore_ascii_case_exec(s.as_slice(), all.as_slice()) {
        uid == -1
    } else {
        true
    }
}

/// The tag that `0x...` text names: after a `0x` or `0X` prefix, a
/// hexadecimal 32-bit number.
pub open spec fn parse_tag_spec(raw: Seq<char>) -> Option<u32> {
    if starts_with(raw, "0x"@) || starts_with(raw, "0X"@) {
        match parse_hex_u32(raw.skip(2)) {
            Some(v) => Some(v as u32),
            None => None,
        }
    } else {
        None
    }
}

/// Reads a tag as `parse_tag_spec` says.
pub fn parse_tag(raw: &str) -> (r: Option<u32>)
    ensures
        r == parse_tag_spec(raw@),
{
    let s = chars_of(raw);
    let p1 = chars_of("0x");
    let p2 = chars_of("0X");
    if !has_prefix(s.as_slice(), p1.as_slice()) && !has_prefix(s.as_slice(), p2.as_slice()) {
        return None;
    }
    proof {
        reveal_strlit("0x");
        reveal_strlit("0X");
    }
    let hexs = vstd::slice::slice_subrange(s.as_slice(), 2, s.len());
    assert(hexs@ =~= raw@.skip(2));
    match parse_hex_u32_exec(hexs) {
        Some(v) => Some(v),
        None => None,
    }
}

/// The uid, set and tag texts of a match of
/// `uid=(-?\d+)\s+set=(\S+)\s+tag=(0x[0-9a-fA-F]+)` starting at `p`.
pub open spec fn ident_match(t: Seq<char>, p: int) -> Option<(Seq<char>, Seq<char>, Seq<char>)> {
    let q = p + 4;
    let m = if 0 <= q < t.len() && t[q] == '-' {
        q + 1
    } else {
        q
    };
    let e1 = run_end(t, m, digit());
    let e2 = run_end(t, e1, ws());
    let s0 = e2 + 4;
    let s1 = run_end(t, s0, non_ws());
    let s2 = run_end(t, s1, ws());
    let h0 = s2 + 6;
    let h1 = run_end(t, h0, hex());
    if 0 <= p && occurs_at(t, "uid="@, p) && e1 > m && e2 > e1 && occurs_at(t, "set="@, e2) && s1
        > s0 && s2 > s1 && occurs_at(t, "tag=0x"@, s2) && h1 > h0 {
        Some((t.subrange(q, e1), t.subrange(s0, s1), t.subrange(s2 + 4, h1)))
    } else {
        None
    }
}

/// The first match of the ident pattern at or after `p`.
pub open spec fn ident_from(t: Seq<char>, p: int) -> Option<(Seq<char>, Seq<char>, Seq<char>)>
    decreases t.len() - p,
{
    if p < 0 || p >= t.len() {
        None
    } else if ident_match(t, p) is Some {
        ident_match(t, p)
    } else {
        ident_from(t, p + 1)
    }
}

fn ident_match_exec(t: &[char], p: usize) -> (r: Option<(Vec<char>, Vec<char>, Vec<char>)>)
    requires
        p <= t@.len(),
    ensures
        match r {
            Some((a, b, c)) => ident_match(t@, p as int) == Some((a@, b@, c@)),
            None => ident_match(t@, p as int) is None,
        },
{
    proof {
        reveal_strlit("uid=");
        reveal_strlit("set=");
        reveal_strlit("tag=0x");
    }
    assert(t@.len() == t.len());
    if !literal_at(t, "uid=", p) {
        return None;
    }
    let q = p + 4;
    let m = if q < t.len() && t[q] == '-' {
        q + 1
    } else {
        q
    };
    let e1 = skip_digits(t, m);
    proof {
        lemma_run_end_bounds(t@, m as int, digit());
    }
    if e1 == m {
        return None;
    }
    let e2 = skip_ws_run(t, e1);
    proof {
        lemma_run_end_bounds(t@, e1 as int, ws());
    }
    if e2 == e1 || !literal_at(t, "set=", e2) {
        return None;
    }
    let s0 = e2 + 4;
    let s1 = skip_non_ws(t, s0);
    proof {
        lemma_run_end_bounds(t@, s0 as int, non_ws());
    }
    if s1 == s0 {
        return None;
    }
    let s2 = skip_ws_run(t, s1);
    proof {
        lemma_run_end_bounds(t@, s1 as int, ws());
    }
    if s2 == s1 || !literal_at(t, "tag=0x", s2) {
        return None;
    }
    let h0 = s2 + 6;
    let h1 = skip_hex(t, h0);
    proof {
        lemma_run_end_bounds(t@, h0 as int, hex());
    }
    if h1 == h0 {
        return None;
    }
    let uid = vstd::slice::slice_to_vec(vstd::slice::slice_subrange(t, q, e1));
    let set = vstd::slice::slice_to_vec(vstd::slice::slice_subrange(t, s0, s1));
    let tag = vstd::slice::slice_to_vec(vstd::slice::slice_subrange(t, s2 + 4, h1));
    Some((uid, set, tag))
}

fn ident_from_exec(t: &[char]) -> (r: Option<(Vec<char>, Vec<char>, Vec<char>)>)
    ensures
        match r {
            Some((a, b, c)) => ident_from(t@, 0) == Some((a@, b@, c@)),
            None => ident_from(t@, 0) is None,
        },
{
    let mut p: usize = 0;
    while p < t.len()
        invariant
            p <= t@.len(),
            ident_from(t@, 0) == ident_from(t@, p as int),
        decreases t@.len() - p,
    {
        match ident_match_exec(t, p) {
            Some(c) => return Some(c),
            None => {},
        }
        p = p + 1;
    }
    None
}

/// A `tb=` group of the history pattern at `q`: `\btb=(\d+)\b`, giving the
/// end of its digits.
pub open spec fn tb_at(t: Seq<char>, q: int) -> Option<int> {
    let c = q + 3;
    let d = run_end(t, c, digit());
    if word_boundary(t, q) && occurs_at(t, "tb="@, q) && d > c && word_boundary(t, d) {
        Some(d)
    } else {
        None
    }
}

/// The last `q` in `[b, k]` at which a `tb=` group matches, or -1.
pub open spec fn last_tb(t: Seq<char>, b: int, k: int) -> int
    decreases k - b + 1,
{
    if k < b {
        -1
    } else if tb_at(t, k) is Some {
        k
    } else {
        last_tb(t, b, k - 1)
    }
}

/// The `rb` and `tb` digits of a match of `\brb=(\d+)\b.*\btb=(\d+)\b` that
/// starts at `p`: the `tb` group is the last one after the `rb` group.
pub open spec fn history_match(t: Seq<char>, p: int) -> Option<(Seq<char>, Seq<char>)> {
    let a = p + 3;
    let b = run_end(t, a, digit());
    let q = last_tb(t, b, t.len() as int);
    if 0 <= p && word_boundary(t, p) && occurs_at(t, "rb="@, p) && b > a && word_boundary(t, b) && q
        >= b {
        Some((t.subrange(a, b), t.subrange(q + 3, tb_at(t, q).unwrap())))
    } else {
        None
    }
}

/// The first history match at or after `p`.
pub open spec fn history_from(t: Seq<char>, p: int) -> Option<(Seq<char>, Seq<char>)>
    decreases t.len() - p,
{
    if p < 0 || p >= t.len() {
        None
    } else if history_match(t, p) is Some {
        history_match(t, p)
    } else {
        history_from(t, p + 1)
    }
}

fn tb_at_exec(t: &[char], q: usize) -> (r: Option<usize>)
    requires
        q <= t@.len(),
    ensures
        match r {
            Some(d) => tb_at(t@, q as int) == Some(d as int),
            None => tb_at(t@, q as int) is None,
        },
{
    proof {
        reveal_strlit("tb=");
    }
    assert(t@.len() == t.len());
    if !is_word_boundary(t, q) || !literal_at(t, "tb=", q) {
        return None;
    }
    let c = q + 3;
    let d = skip_digits(t, c);
    proof {
        lemma_run_end_bounds(t@, c as int, digit());
    }
    if d == c || !is_word_boundary(t, d) {
        return None;
    }
    Some(d)
}

fn history_match_exec(t: &[char], p: usize) -> (r: Option<(Vec<char>, Vec<char>)>)
    requires
        p <= t@.len(),
    ensures
        match r {
            Some((a, b)) => history_match(t@, p as int) == Some((a@, b@)),
            None => history_match(t@, p as int) is None,
        },
{
    proof {
        reveal_strlit("rb=");
    }
    assert(t@.len() == t.len());
    if !is_word_boundary(t, p) || !literal_at(t, "rb=", p) {
        return None;
    }
    let a = p + 3;
    let b = skip_digits(t, a);
    proof {
        lemma_run_end_bounds(t@, a as int, digit());
    }
    if b == a || !is_word_boundary(t, b) {
        return None;
    }
    let mut k: usize = t.len();
    loop
        invariant
            b <= k <= t@.len(),
            t@.len() == t.len(),
            last_tb(t@, b as int, t@.len() as int) == last_tb(t@, b as int, k as int),
            b > a,
            a == p + 3,
            b as int == run_end(t@, a as int, digit()),
            word_boundary(t@, p as int) && occurs_at(t@, "rb="@, p as int) && word_boundary(t@, b as int),
        decreases k,
    {
        match tb_at_exec(t, k) {
            Some(d) => {
                proof {
                    reveal_strlit("tb=");
                    lemma_run_end_bounds(t@, k + 3, digit());
                }
                let rb = vstd::slice::slice_to_vec(vstd::slice::slice_subrange(t, a, b));
                let tb = vstd::slice::slice_to_vec(vstd::slice::slice_subrange(t, k + 3, d));
                return Some((rb, tb));
            },
            None => {},
        }
        if k == b {
            assert(last_tb(t@, b as int, b - 1) == -1);
            return None;
        }
        k = k - 1;
    }
}

fn history_from_exec(t: &[char]) -> (r: Option<(Vec<char>, Vec<char>)>)
    ensures
        match r {
            Some((a, b)) => history_from(t@, 0) == Some((a@, b@)),
            None => history_from(t@, 0) is None,
        },
{
    let mut p: usize = 0;
    while p < t.len()
        invariant
            p <= t@.len(),
            history_from(t@, 0) == history_from(t@, p as int),
        decreases t@.len() - p,
    {
        match history_match_exec(t, p) {
            Some(c) => return Some(c),
            None => {},
        }
        p = p + 1;
    }
    None
}

/// `a + b`, saturating at the largest 64-bit value.
pub open spec fn sat_add(a: nat, b: nat) -> nat {
    if a + b <= u64::MAX {
        a + b
    } else {
        u64::MAX as nat
    }
}

/// The value of a number's digits, or zero when they do not read as an
/// unsigned 64-bit number.
pub open spec fn u64_or_zero(s: Seq<char>) -> nat {
    match parse_unsigned(s, u64::MAX as nat) {
        Some(v) => v,
        None => 0,
    }
}

/// The scan after one more line: an ident line sets the tag and whether the
/// block counts; in a counting block, a history line adds its received and
/// sent bytes to the total of the block's protocol.
pub open spec fn scan_step(st: (nat, nat, Option<u32>, bool), l: Seq<char>) -> (nat, nat, Option<u32>, bool) {
    let t = trim(l);
    if starts_with(t, "ident="@) {
        match ident_from(t, 0) {
            Some((uid, set, tag)) => {
                let u = match parse_i32(uid) {
                    Some(v) => v,
                    None => 0,
                };
                let tg = parse_tag_spec(tag);
                (st.0, st.1, tg, should_count_spec(u, set, tg))
            },
            None => (st.0, st.1, None, false),
        }
    } else if !st.3 {
        st
    } else {
        match history_from(t, 0) {
            Some((rb, tb)) => {
                let total = sat_add(u64_or_zero(rb), u64_or_zero(tb));
                if st.2 == Some(TAG_TCP) {
                    (sat_add(st.0, total), st.1, st.2, st.3)
                } else if st.2 == Some(TAG_UDP) {
                    (st.0, sat_add(st.1, total), st.2, st.3)
                } else {
                    st
                }
            },
            None => st,
        }
    }
}

/// The scan after the lines `ls`, from no totals and no block.
pub open spec fn scan_lines(ls: Seq<Seq<char>>) -> (nat, nat, Option<u32>, bool)
    decreases ls.len(),
{
    if ls.len() == 0 {
        (0, 0, None, false)
    } else {
        scan_step(scan_lines(ls.drop_last()), ls.last())
    }
}

/// The TCP and UDP byte totals (received plus sent, saturating) that
/// `dumpsys netstats --uid --tag` text reports, as `scan_lines` adds them up.
pub open spec fn protocol_bytes_spec(text: Seq<char>) -> (nat, nat) {
    let st = scan_lines(lines(text));
    (st.0, st.1)
}

fn sat_add_exec(a: u64, b: u64) -> (r: u64)
    ensures
        r as nat == sat_add(a as nat, b as nat),
{
    if a <= u64::MAX - b {
        a + b
    } else {
        u64::MAX
    }
}

fn u64_or_zero_exec(s: &Vec<char>) -> (r: u64)
    ensures
        r as nat == u64_or_zero(s@),
{
    match parse_unsigned_exec(s.as_slice(), u64::MAX) {
        Some(v) => v,
        None => 0,
    }
}

/// Adds up TCP (`tag=0xfffffff2`) and UDP (`tag=0xfffffff1`) bytes, as
/// `protocol_bytes_spec` says.
pub fn parse_protocol_bytes(text: &str) -> (r: (u64, u64))
    ensures
        (r.0 as nat, r.1 as nat) == protocol_bytes_spec(text@),
{
    let cs = chars_of(text);
    let ls = split_lines(cs.as_slice());
    let ghost all = lines(text@);
    let mut tcp: u64 = 0;
    let mut udp: u64 = 0;
    let mut tag: Option<u32> = None;
    let mut counting = false;
    let mut i: usize = 0;
    assert(all.take(0) =~= Seq::<Seq<char>>::empty());
    while i < ls.len()
        invariant
            i <= ls@.len() == all.len(),
            all == lines(text@),
            forall|j: int| 0 <= j < ls@.len() ==> #[trigger] ls@[j]@ == all[j],
            scan_lines(all.take(i as int)) == (tcp as nat, udp as nat, tag, counting),
        decreases ls@.len() - i,
    {
        assert(all.take(i + 1).drop_last() =~= all.take(i as int));
        assert(all.take(i + 1).last() == all[i as int]);
        let t = trimmed(ls[i].as_slice());
        let pre = chars_of("ident=");
        if has_prefix(t.as_slice(), pre.as_slice()) {
            match ident_from_exec(t.as_slice()) {
                Some((uid_s, set_s, tag_s)) => {
                    let uid: i32 = match parse_i32_exec(uid_s.as_slice()) {
                        Some(v) => v,
                        None => 0,
                    };
                    let set = string_of(set_s.as_slice());
                    let tag_str = string_of(tag_s.as_slice());
                    tag = parse_tag(tag_str.as_str());
                    counting = should_count(uid, set.as_str(), tag);
                },
                None => {
                    tag = None;
                    counting = false;
                },
            }
        } else if counting {
            match history_from_exec(t.as_slice()) {
                Some((rb, tb)) => {
                    let total = sat_add_exec(u64_or_zero_exec(&rb), u64_or_zero_exec(&tb));
                    if tag == Some(TAG_TCP) {
                        tcp = sat_add_exec(tcp, total);
                    } else if tag == Some(TAG_UDP) {
                        udp = sat_add_exec(udp, total);
                    }
                },
                None => {},
            }
        }
        i = i + 1;
    }
    assert(all.take(i as int) =~= all);
    (tcp, udp)
}

// ---------------------------------------------------------------------------
// Runs
// ---------------------------------------------------------------------------

/// The arguments that list the packages with their uids.
pub open spec fn packages_args() -> Seq<Seq<char>> {
    seq!["shell"@, "pm"@, "list"@, "packages"@, "-U"@]
}

/// The arguments that dump the per-uid, per-tag traffic.
pub open spec fn netstats_uid_args() -> Seq<Seq<char>> {
    seq!["shell"@, "dumpsys"@, "netstats"@, "--uid"@, "--tag"@]
}

/// The packages of each uid on a device, given how
/// `adb -s <serial> shell pm list packages -U` ended.
pub fn fetch_package_uids(serial: &str, outcome: Result<CommandOutput, IoFailure>) -> (r: Result<
    HashMap<u32, Vec<String>>,
    AdbError,
>)
    ensures
        match succeeded(outcome) {
            Some(out) => r matches Ok(m) && names_view(m@) == packages_map(lines(lossy_utf8(out.stdout@))),
            None => run_failed(serial_args(serial@, packages_args()), outcome, r),
        },
{
    let args = ["shell", "pm", "list", "packages", "-U"];
    assert(arg_views(args@) =~= packages_args());
    match run_adb_for_serial(serial, &args, outcome) {
        Err(e) => Err(e),
        Ok(output) => {
            let text = utf8_lossy(output.stdout.as_slice());
            Ok(parse_package_uids(text.as_str()))
        },
    }
}

/// The TCP and UDP totals of a device, given how
/// `adb -s <serial> shell dumpsys netstats --uid --tag` ended.
pub fn fetch_protocol_bytes(serial: &str, outcome: Result<CommandOutput, IoFailure>) -> (r: Result<
    (u64, u64),
    AdbError,
>)
    ensures
        match succeeded(outcome) {
            Some(out) => r matches Ok(b) && (b.0 as nat, b.1 as nat) == protocol_bytes_spec(
                lossy_utf8(out.stdout@),
            ),
            None => run_failed(serial_args(serial@, netstats_uid_args()), outcome, r),
        },
{
    let args = ["shell", "dumpsys", "netstats", "--uid", "--tag"];
    assert(arg_views(args@) =~= netstats_uid_args());
    match run_adb_for_serial(serial, &args, outcome) {
        Err(e) => Err(e),
        Ok(output) => {
            let text = utf8_lossy(output.stdout.as_slice());
            Ok(parse_protocol_bytes(text.as_str()))
        },
    }
}

} // verus!
