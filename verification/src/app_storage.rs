//! Per-app storage: the package list, the shell script that measures a batch
//! of packages, and the reading of its output.

use vstd::prelude::*;

use crate::adb::{arg_views, run_adb_for_serial, run_failed, serial_args, succeeded,
    CommandOutput, IoFailure};
use crate::error::AdbError;
use crate::scan::{digit, lemma_run_end_bounds, literal_at, run_end, skip_digits};
use crate::text::{
    chars_of, find_char, find_from, has_prefix, lines, lossy_utf8, occurs_at, parse_unsigned,
    parse_unsigned_exec, same_chars, split_lines, starts_with, string_of, trim, trimmed,
    utf8_lossy,
};

verus! {

/// Milliseconds between two scans of all packages.
pub const REFRESH_MILLIS: u64 = 60000;

/// How many packages one script measures.
pub const BATCH_SIZE: usize = 20;

/// Per-app storage sizes from `cmd package get-package-storage-stats`.
#[derive(Debug, Clone, PartialEq, Eq)]
pub struct PackageStorage {
    pub package: String,
    pub total_bytes: u64,
}

/// Incremental update from the app storage poller.
#[derive(Debug, Clone, PartialEq, Eq)]
pub enum AppStorageUpdate {
    PackageList(Vec<String>),
    PackageStorage(PackageStorage),
    ScanComplete,
    Error(String),
}

// ---------------------------------------------------------------------------
// Shell quoting and the batch script
// ---------------------------------------------------------------------------

/// The characters of `s` with each `'` replaced by `'\''`.
pub open spec fn quote_body(s: Seq<char>) -> Seq<char>
    decreases s.len(),
{
    if s.len() == 0 {
        seq![]
    } else {
        quote_body(s.drop_last()) + if s.last() == '\'' {
            seq!['\'', '\\', '\'', '\'']
        } else {
            seq![s.last()]
        }
    }
}

/// `s` in single quotes, safe as one shell word.
pub open spec fn shell_quote_spec(s: Seq<char>) -> Seq<char> {
    seq!['\''] + quote_body(s) + seq!['\'']
}

/// Quotes `value` as one shell word, as `shell_quote_spec` says.
pub fn shell_quote(value: &str) -> (r: String)
    ensures
        r@ == shell_quote_spec(value@),
{
    let v = chars_of(value);
    let mut out: Vec<char> = Vec::new();
    out.push('\'');
    let mut i: usize = 0;
    assert(v@.take(0) =~= Seq::<char>::empty());
    while i < v.len()
        invariant
            i <= v@.len(),
            out@ == seq!['\''] + quote_body(v@.take(i as int)),
        decreases v@.len() - i,
    {
        assert(v@.take(i + 1).drop_last() =~= v@.take(i as int));
        assert(v@.take(i + 1).last() == v@[i as int]);
        if v[i] == '\'' {
            out.push('\'');
            out.push('\\');
            out.push('\'');
            out.push('\'');
        } else {
            out.push(v[i]);
        }
        i = i + 1;
        assert(out@ =~= seq!['\''] + quote_body(v@.take(i as int)));
    }
    assert(v@.take(i as int) =~= v@);
    out.push('\'');
    string_of(out.as_slice())
}

/// What follows the quoted package in its part of the script: print a marker
/// line, then the package's storage stats.
pub open spec fn script_tail() -> Seq<char> {
    "; printf '@PKG@%s\\n' \"$pkg\"; cmd package get-package-storage-stats \"$pkg\" 2>/dev/null || true"@
}

/// The part of the script for one package.
pub open spec fn script_piece(p: Seq<char>) -> Seq<char> {
    "pkg="@ + shell_quote_spec(p) + script_tail()
}

/// The parts joined by `; `.
pub open spec fn joined_pieces(ps: Seq<Seq<char>>) -> Seq<char>
    decreases ps.len(),
{
    if ps.len() == 0 {
        seq![]
    } else if ps.len() == 1 {
        script_piece(ps[0])
    } else {
        joined_pieces(ps.drop_last()) + "; "@ + script_piece(ps.last())
    }
}

/// The package names of a list.
pub open spec fn names_of(ps: Seq<String>) -> Seq<Seq<char>> {
    ps.map_values(|p: String| p@)
}

fn push_str(out: &mut Vec<char>, s: &str)
    ensures
        final(out)@ == old(out)@ + s@,
{
    let c = chars_of(s);
    let mut i: usize = 0;
    let ghost base = out@;
    while i < c.len()
        invariant
            i <= c@.len(),
            out@ == base + c@.take(i as int),
        decreases c@.len() - i,
    {
        out.push(c[i]);
        i = i + 1;
        assert(out@ =~= base + c@.take(i as int));
    }
    assert(c@.take(i as int) =~= c@);
}

/// The script that prints, for each package, a marker line with its name and
/// then its storage stats: the parts of `script_piece` joined by `; `.
pub fn build_batch_script(packages: &[String]) -> (r: String)
    ensures
        r@ == joined_pieces(names_of(packages@)),
{
    let mut out: Vec<char> = Vec::new();
    let mut i: usize = 0;
    assert(names_of(packages@.take(0)) =~= Seq::<Seq<char>>::empty());
    while i < packages.len()
        invariant
            i <= packages@.len(),
            out@ == joined_pieces(names_of(packages@.take(i as int))),
        decreases packages@.len() - i,
    {
        let ghost prev = names_of(packages@.take(i as int));
        assert(names_of(packages@.take(i + 1)) =~= prev.push(packages@[i as int]@));
        assert(names_of(packages@.take(i + 1)).drop_last() =~= prev);
        if i > 0 {
            push_str(&mut out, "; ");
        }
        let ghost before_piece = out@;
        push_str(&mut out, "pkg=");
        let q = shell_quote(packages[i].as_str());
        push_str(&mut out, q.as_str());
        push_str(&mut out, "; printf '@PKG@%s\\n' \"$pkg\"; cmd package get-package-storage-stats \"$pkg\" 2>/dev/null || true");
        assert(out@ =~= before_piece + script_piece(packages@[i as int]@));
        i = i + 1;
    }
    assert(packages@.take(i as int) =~= packages@);
    string_of(out.as_slice())
}

// ---------------------------------------------------------------------------
// Storage stats of one package
// ---------------------------------------------------------------------------

/// Whether `(.+?): (\d+) bytes` matches the line `seg` with the lazy part
/// ending at `k`: the digits' end, if so.
pub open spec fn stats_at(seg: Seq<char>, k: int) -> Option<int> {
    let d0 = k + 2;
    let d1 = run_end(seg, d0, digit());
    if 1 <= k && occurs_at(seg, ": "@, k) && d1 > d0 && occurs_at(seg, " bytes"@, d1) {
        Some(d1)
    } else {
        None
    }
}

/// The first `k >= from` at which `stats_at` matches, or the line length.
pub open spec fn first_stats(seg: Seq<char>, from: int) -> int
    decreases seg.len() - from,
{
    if from >= seg.len() || from < 0 {
        seg.len() as int
    } else if stats_at(seg, from) is Some {
        from
    } else {
        first_stats(seg, from + 1)
    }
}

/// The digits that the stats pattern captures in one line (a part of the
/// text between line feeds), if it matches at the line's start.
pub open spec fn stats_digits(seg: Seq<char>) -> Option<Seq<char>> {
    let k = first_stats(seg, 1);
    if k < seg.len() {
        Some(seg.subrange(k + 2, stats_at(seg, k).unwrap()))
    } else {
        None
    }
}

/// What one line adds to the total: its captured number, or nothing when
/// there is none or it does not read as an unsigned 64-bit number.
pub open spec fn line_bytes(seg: Seq<char>) -> nat {
    match stats_digits(seg) {
        Some(d) => match parse_unsigned(d, u64::MAX as nat) {
            Some(v) => v,
            None => 0,
        },
        None => 0,
    }
}

/// The sum over the lines of `s` (split at each `\n`) of `line_bytes`.
pub open spec fn stats_total(s: Seq<char>) -> nat
    decreases s.len(),
{
    if s.len() == 0 {
        0
    } else {
        let i = find_from(s, '\n', 0);
        if i >= s.len() {
            line_bytes(s)
        } else {
            proof {
                crate::text::lemma_find_from(s, '\n', 0);
            }
            line_bytes(s.take(i)) + stats_total(s.skip(i + 1))
        }
    }
}

fn stats_at_exec(seg: &[char], k: usize) -> (r: Option<usize>)
    requires
        k <= seg@.len(),
    ensures
        match r {
            Some(d) => stats_at(seg@, k as int) == Some(d as int),
            None => stats_at(seg@, k as int) is None,
        },
{
    proof {
        reveal_strlit(": ");
        reveal_strlit(" bytes");
    }
    assert(seg@.len() == seg.len());
    if k < 1 || !literal_at(seg, ": ", k) {
        return None;
    }
    let d0 = k + 2;
    let d1 = skip_digits(seg, d0);
    proof {
        lemma_run_end_bounds(seg@, d0 as int, digit());
    }
    if d1 == d0 || !literal_at(seg, " bytes", d1) {
        return None;
    }
    Some(d1)
}

fn line_bytes_exec(seg: &[char]) -> (r: u64)
    ensures
        r as nat == line_bytes(seg@),
{
    let mut k: usize = 1;
    if seg.len() == 0 {
        return 0;
    }
    while k < seg.len()
        invariant
            1 <= k <= seg@.len(),
            first_stats(seg@, 1) == first_stats(seg@, k as int),
        decreases seg@.len() - k,
    {
        match stats_at_exec(seg, k) {
            Some(d1) => {
                proof {
                    lemma_run_end_bounds(seg@, k + 2, digit());
                }
                let digits = vstd::slice::slice_subrange(seg, k + 2, d1);
                return match parse_unsigned_exec(digits, u64::MAX) {
                    Some(v) => v,
                    None => 0,
                };
            },
            None => {},
        }
        k = k + 1;
    }
    0
}

/// Adds up the byte counts of `cmd package get-package-storage-stats`
/// output: each line that reads `<label>: <digits> bytes` contributes its
/// number, as `stats_total` says. The total must fit in 64 bits.
pub fn parse_storage_stats_total(text: &str) -> (r: u64)
    requires
        stats_total(text@) <= u64::MAX,
    ensures
        r as nat == stats_total(text@),
{
    let s = chars_of(text);
    let mut total: u64 = 0;
    let mut start: usize = 0;
    assert(s@.skip(0) =~= s@);
    while start < s.len()
        invariant
            start <= s@.len(),
            s@ == text@,
            stats_total(text@) <= u64::MAX,
            total + stats_total(s@.skip(start as int)) == stats_total(text@),
        decreases s@.len() - start,
    {
        let ghost rest = s@.skip(start as int);
        let e = find_char(s.as_slice(), '\n', start);
        let seg = vstd::slice::slice_subrange(s.as_slice(), start, e);
        proof {
            crate::text::lemma_find_from(s@, '\n', start as int);
            crate::text::lemma_find_from_char(rest, '\n', 0, e - start);
            assert(seg@ =~= rest.take(e - start));
            if e < s.len() {
                assert(rest.skip(e - start + 1) =~= s@.skip(e + 1));
            } else {
                assert(rest.take(e - start) =~= rest);
            }
        }
        let b = line_bytes_exec(seg);
        total = total + b;
        if e == s.len() {
            assert(stats_total(s@.skip(s@.len() as int)) == 0);
            start = e;
        } else {
            start = e + 1;
        }
    }
    assert(s@.skip(start as int) =~= Seq::<char>::empty());
    total
}


// ---------------------------------------------------------------------------
// Batch output
// ---------------------------------------------------------------------------

/// The package that a marker line (trimmed) names: `^@PKG@(.+)$`.
pub open spec fn marker(t: Seq<char>) -> Option<Seq<char>> {
    if starts_with(t, "@PKG@"@) && t.len() > 5 {
        Some(t.skip(5))
    } else {
        None
    }
}

/// The package groups read so far, and the one being read (its name and the
/// body lines after its marker, joined by `\n`).
pub type BatchState = (Seq<(Seq<char>, Seq<char>)>, Option<(Seq<char>, Seq<char>)>);

/// The groups after one more line: a marker closes the open group and opens
/// one for its package; another line joins the open group's body.
pub open spec fn batch_step(st: BatchState, l: Seq<char>) -> BatchState {
    match marker(trim(l)) {
        Some(p) => (
            match st.1 {
                Some(c) => st.0.push(c),
                None => st.0,
            },
            Some((p, seq![])),
        ),
        None => match st.1 {
            Some((p, body)) => (
                st.0,
                Some(
                    (
                        p,
                        if body.len() == 0 {
                            l
                        } else {
                            body + "\n"@ + l
                        },
                    ),
                ),
            ),
            None => st,
        },
    }
}

/// The groups after the lines `ls`.
pub open spec fn batch_scan(ls: Seq<Seq<char>>) -> BatchState
    decreases ls.len(),
{
    if ls.len() == 0 {
        (seq![], None)
    } else {
        batch_step(batch_scan(ls.drop_last()), ls.last())
    }
}

/// The groups of the lines `ls`: the closed ones and the last open one.
pub open spec fn final_groups(ls: Seq<Seq<char>>) -> Seq<(Seq<char>, Seq<char>)> {
    let st = batch_scan(ls);
    match st.1 {
        Some(c) => st.0.push(c),
        None => st.0,
    }
}

/// Every package group of the batch output, in order.
pub open spec fn batch_groups(text: Seq<char>) -> Seq<(Seq<char>, Seq<char>)> {
    final_groups(lines(text))
}

/// Every group's byte total fits in 64 bits.
pub open spec fn totals_fit(groups: Seq<(Seq<char>, Seq<char>)>) -> bool {
    forall|i: int| 0 <= i < groups.len() ==> stats_total(#[trigger] groups[i].1) <= u64::MAX
}

/// Each group's package and byte total.
pub open spec fn group_totals(groups: Seq<(Seq<char>, Seq<char>)>) -> Seq<(Seq<char>, u64)> {
    groups.map_values(|g: (Seq<char>, Seq<char>)| (g.0, stats_total(g.1) as u64))
}

/// The views of measured packages.
pub open spec fn sizes_view(v: Seq<(String, u64)>) -> Seq<(Seq<char>, u64)> {
    v.map_values(|e: (String, u64)| (e.0@, e.1))
}

/// The first index of `x` in `s` at or after `i`, or `s.len()`.
pub open spec fn first_pos(s: Seq<Seq<char>>, x: Seq<char>, i: int) -> int
    decreases s.len() - i,
{
    if i >= s.len() || i < 0 {
        s.len() as int
    } else if s[i] == x {
        i
    } else {
        first_pos(s, x, i + 1)
    }
}

/// The measured packages with each expected package that is missing added
/// with zero bytes, in order.
pub open spec fn with_missing(expected: Seq<Seq<char>>, results: Seq<(Seq<char>, u64)>) -> Seq<
    (Seq<char>, u64),
>
    decreases expected.len(),
{
    if expected.len() == 0 {
        results
    } else {
        let acc = with_missing(expected.drop_last(), results);
        if exists|i: int| 0 <= i < acc.len() && acc[i].0 == expected.last() {
            acc
        } else {
            acc.push((expected.last(), 0u64))
        }
    }
}

/// The entries of `list` whose package first appears in `expected` at `k`
/// (`k == expected.len()` for those not there).
pub open spec fn at_position(
    list: Seq<(Seq<char>, u64)>,
    expected: Seq<Seq<char>>,
    k: int,
) -> Seq<(Seq<char>, u64)> {
    list.filter(position_is(expected, k))
}

/// The entries whose package first appears in `expected` at `k`.
pub open spec fn position_is(expected: Seq<Seq<char>>, k: int) -> spec_fn((Seq<char>, u64)) -> bool {
    |e: (Seq<char>, u64)| first_pos(expected, e.0, 0) == k
}

/// Appends the entries of `all` whose package first appears among the
/// expected ones at `k`, in order.
fn push_at_position(out: &mut Vec<(String, u64)>, all: &Vec<(String, u64)>, expected: &[String], k: usize)
    ensures
        sizes_view(final(out)@) == sizes_view(old(out)@) + at_position(sizes_view(all@), names_of(expected@), k as int),
{
    let ghost ev = names_of(expected@);
    let ghost full = sizes_view(all@);
    let ghost base = sizes_view(out@);
    let mut j: usize = 0;
    assert(full.take(0) =~= Seq::<(Seq<char>, u64)>::empty());
    while j < all.len()
        invariant
            j <= all@.len(),
            ev == names_of(expected@),
            full == sizes_view(all@),
            sizes_view(out@) == base + full.take(j as int).filter(position_is(ev, k as int)),
        decreases all@.len() - j,
    {
        assert(full.take(j + 1).drop_last() =~= full.take(j as int));
        assert(full.take(j + 1).last() == full[j as int]);
        let pos = first_pos_exec(expected, &all[j].0);
        let ghost prev = sizes_view(out@);
        let ghost pr = position_is(ev, k as int);
        assert(full[j as int].0 == all@[j as int].0@);
        assert(pr(full[j as int]) == (pos == k));
        assert(full.take(j + 1) =~= full.take(j as int).push(full[j as int]));
        proof {
            full.take(j as int).lemma_filter_push(full[j as int], pr);
        }
        assert(full.take(j + 1).filter(pr) == if pr(full[j as int]) {
            full.take(j as int).filter(pr).push(full[j as int])
        } else {
            full.take(j as int).filter(pr)
        });
        if pos == k {
            let name = string_of(chars_of(all[j].0.as_str()).as_slice());
            out.push((name, all[j].1));
            assert(sizes_view(out@) =~= prev.push(full[j as int]));
        }
        assert(sizes_view(out@) =~= base + full.take(j + 1).filter(position_is(ev, k as int)));
        j = j + 1;
    }
    assert(full.take(j as int) =~= full);
}

/// The entries of `list` ordered by the first position of their package in
/// `expected` for positions below `k`, keeping the order of entries with the
/// same position.
pub open spec fn by_position(list: Seq<(Seq<char>, u64)>, expected: Seq<Seq<char>>, k: int) -> Seq<
    (Seq<char>, u64),
>
    decreases k,
{
    if k <= 0 {
        seq![]
    } else {
        by_position(list, expected, k - 1) + at_position(list, expected, k - 1)
    }
}

/// The measured packages with the missing ones added, stably sorted by the
/// first position of the package among the expected ones (those not
/// expected last).
pub open spec fn fill_spec(expected: Seq<Seq<char>>, results: Seq<(Seq<char>, u64)>) -> Seq<
    (Seq<char>, u64),
> {
    by_position(with_missing(expected, results), expected, expected.len() + 1int)
}

fn first_pos_exec(expected: &[String], name: &String) -> (r: usize)
    ensures
        r as int == first_pos(names_of(expected@), name@, 0),
{
    let n = chars_of(name.as_str());
    let ghost ev = names_of(expected@);
    let mut i: usize = 0;
    while i < expected.len()
        invariant
            i <= expected@.len(),
            ev == names_of(expected@),
            first_pos(ev, name@, 0) == first_pos(ev, name@, i as int),
            n@ == name@,
        decreases expected@.len() - i,
    {
        let e = chars_of(expected[i].as_str());
        if same_chars(e.as_slice(), n.as_slice()) {
            return i;
        }
        i = i + 1;
    }
    i
}

proof fn lemma_first_pos_bounds(s: Seq<Seq<char>>, x: Seq<char>, i: int)
    requires
        0 <= i,
    ensures
        i <= first_pos(s, x, i) <= s.len() || first_pos(s, x, i) == s.len(),
        0 <= first_pos(s, x, i) <= s.len(),
    decreases s.len() - i,
{
    if i < s.len() && s[i] != x {
        lemma_first_pos_bounds(s, x, i + 1);
    }
}

proof fn lemma_with_missing(expected: Seq<Seq<char>>, results: Seq<(Seq<char>, u64)>)
    ensures
        results.len() <= with_missing(expected, results).len(),
        forall|i: int| 0 <= i < results.len() ==> #[trigger] with_missing(expected, results)[i] == results[i],
        forall|j: int|
            #![trigger expected[j]]
            0 <= j < expected.len() ==> exists|i: int|
                0 <= i < with_missing(expected, results).len() && #[trigger] with_missing(expected, results)[i].0
                    == expected[j],
    decreases expected.len(),
{
    if expected.len() > 0 {
        let e0 = expected.drop_last();
        lemma_with_missing(e0, results);
        let acc = with_missing(e0, results);
        let wm = with_missing(expected, results);
        assert forall|i: int| 0 <= i < results.len() implies #[trigger] wm[i] == results[i] by {
            assert(acc[i] == results[i]);
        }
        assert forall|j: int| #![trigger expected[j]] 0 <= j < expected.len() implies exists|i: int|
            0 <= i < wm.len() && #[trigger] wm[i].0 == expected[j] by {
            if j < expected.len() - 1 {
                assert(expected[j] == e0[j]);
                let i = choose|i: int| 0 <= i < acc.len() && #[trigger] acc[i].0 == e0[j];
                assert(wm[i] == acc[i]);
            } else if exists|i: int| 0 <= i < acc.len() && acc[i].0 == expected.last() {
                let i = choose|i: int| 0 <= i < acc.len() && acc[i].0 == expected.last();
                assert(wm[i].0 == expected[j]);
            } else {
                assert(wm[acc.len() as int].0 == expected[j]);
            }
        }
    }
}

proof fn lemma_by_position_contains(
    list: Seq<(Seq<char>, u64)>,
    expected: Seq<Seq<char>>,
    k: int,
    e: (Seq<char>, u64),
)
    requires
        list.contains(e),
        0 <= first_pos(expected, e.0, 0) < k,
    ensures
        by_position(list, expected, k).contains(e),
    decreases k,
{
    let a = by_position(list, expected, k - 1);
    let b = at_position(list, expected, k - 1);
    assert(by_position(list, expected, k) == a + b);
    if first_pos(expected, e.0, 0) < k - 1 {
        lemma_by_position_contains(list, expected, k - 1, e);
        let w = choose|w: int| 0 <= w < a.len() && a[w] == e;
        assert((a + b)[w] == e);
    } else {
        let idx = choose|i: int| 0 <= i < list.len() && list[i] == e;
        list.lemma_filter_contains(position_is(expected, k - 1), idx);
        let w = choose|w: int| 0 <= w < b.len() && b[w] == e;
        assert((a + b)[a.len() + w] == e);
    }
}

/// Filling in missing packages lists every expected package, and keeps
/// every measured entry.
pub proof fn fill_lists_every_package(expected: Seq<Seq<char>>, results: Seq<(Seq<char>, u64)>)
    ensures
        forall|j: int|
            #![trigger expected[j]]
            0 <= j < expected.len() ==> exists|i: int|
                0 <= i < fill_spec(expected, results).len() && #[trigger] fill_spec(expected, results)[i].0
                    == expected[j],
        forall|i: int| 0 <= i < results.len() ==> fill_spec(expected, results).contains(#[trigger] results[i]),
{
    let wm = with_missing(expected, results);
    let f = fill_spec(expected, results);
    lemma_with_missing(expected, results);
    assert forall|j: int| #![trigger expected[j]] 0 <= j < expected.len() implies exists|i: int|
        0 <= i < f.len() && #[trigger] f[i].0 == expected[j] by {
        let i0 = choose|i: int| 0 <= i < wm.len() && #[trigger] wm[i].0 == expected[j];
        let e = wm[i0];
        lemma_first_pos_bounds(expected, e.0, 0);
        lemma_by_position_contains(wm, expected, expected.len() + 1int, e);
        let w = choose|w: int| 0 <= w < f.len() && f[w] == e;
        assert(f[w].0 == expected[j]);
    }
    assert forall|i: int| 0 <= i < results.len() implies f.contains(#[trigger] results[i]) by {
        assert(wm[i] == results[i]);
        lemma_first_pos_bounds(expected, results[i].0, 0);
        lemma_by_position_contains(wm, expected, expected.len() + 1int, results[i]);
    }
}

/// Adds each expected package that is missing from `results` with zero
/// bytes, then orders the entries by the first position of their package
/// among the expected ones, as `fill_spec` says.
pub fn fill_missing_packages(expected: &[String], results: Vec<(String, u64)>) -> (r: Vec<(String, u64)>)
    ensures
        sizes_view(r@) == fill_spec(names_of(expected@), sizes_view(results@)),
{
    let ghost ev = names_of(expected@);
    let mut all = results;
    let mut i: usize = 0;
    assert(ev.take(0) =~= Seq::<Seq<char>>::empty());
    while i < expected.len()
        invariant
            i <= expected@.len(),
            ev == names_of(expected@),
            sizes_view(all@) == with_missing(ev.take(i as int), sizes_view(results@)),
        decreases expected@.len() - i,
    {
        assert(ev.take(i + 1).drop_last() =~= ev.take(i as int));
        assert(ev.take(i + 1).last() == expected@[i as int]@);
        let want = chars_of(expected[i].as_str());
        let mut found = false;
        let mut j: usize = 0;
        while j < all.len()
            invariant
                j <= all@.len(),
                want@ == ev[i as int],
                found == exists|q: int| 0 <= q < j && sizes_view(all@)[q].0 == want@,
            decreases all@.len() - j,
        {
            let have = chars_of(all[j].0.as_str());
            if same_chars(have.as_slice(), want.as_slice()) {
                found = true;
            }
            proof {
                if found {
                    if same_chars_holds(have@, want@) {
                        assert(sizes_view(all@)[j as int].0 == want@);
                    }
                }
            }
            j = j + 1;
        }
        if !found {
            let ghost before = sizes_view(all@);
            all.push((string_of(want.as_slice()), 0));
            assert(sizes_view(all@) =~= before.push((ev[i as int], 0u64)));
        }
        i = i + 1;
    }
    assert(ev.take(i as int) =~= ev);
    let ghost full = sizes_view(all@);
    let mut out: Vec<(String, u64)> = Vec::new();
    let mut k: usize = 0;
    while k < expected.len()
        invariant
            k <= expected@.len(),
            ev == names_of(expected@),
            full == sizes_view(all@),
            sizes_view(out@) == by_position(full, ev, k as int),
        decreases expected@.len() - k,
    {
        push_at_position(&mut out, &all, expected, k);
        k = k + 1;
    }
    push_at_position(&mut out, &all, expected, k);
    out
}

/// `same_chars` equality is equality of the sequences.
proof fn same_chars_holds(a: Seq<char>, b: Seq<char>) -> (r: bool)
    ensures
        r == (a == b),
{
    a == b
}

/// The package groups of batch output, as `batch_groups` says: each marker's
/// package with the lines after it.
pub fn split_batch_groups(text: &str) -> (r: Vec<(String, String)>)
    ensures
        r@.map_values(|g: (String, String)| (g.0@, g.1@)) == batch_groups(text@),
{
    let cs = chars_of(text);
    let ls = split_lines(cs.as_slice());
    let ghost all = lines(text@);
    let mut groups: Vec<(String, String)> = Vec::new();
    let mut current: Option<String> = None;
    let mut body: Vec<char> = Vec::new();
    let mut i: usize = 0;
    assert(all.take(0) =~= Seq::<Seq<char>>::empty());
    assert(groups@.map_values(|g: (String, String)| (g.0@, g.1@)) =~= batch_scan(all.take(0)).0);
    while i < ls.len()
        invariant
            i <= ls@.len() == all.len(),
            all == lines(text@),
            forall|j: int| 0 <= j < ls@.len() ==> #[trigger] ls@[j]@ == all[j],
            groups@.map_values(|g: (String, String)| (g.0@, g.1@)) == batch_scan(all.take(i as int)).0,
            match batch_scan(all.take(i as int)).1 {
                Some((p, b)) => current is Some && current.unwrap()@ == p && body@ == b,
                None => current is None,
            },
        decreases ls@.len() - i,
    {
        let ghost l = all[i as int];
        assert(all.take(i + 1).drop_last() =~= all.take(i as int));
        assert(all.take(i + 1).last() == l);
        let line = &ls[i];
        let t = trimmed(line.as_slice());
        let pre = chars_of("@PKG@");
        proof {
            reveal_strlit("@PKG@");
        }
        if has_prefix(t.as_slice(), pre.as_slice()) && t.len() > 5 {
            let name = string_of(vstd::slice::slice_subrange(t.as_slice(), 5, t.len()));
            assert(name@ =~= t@.skip(5));
            match current {
                Some(p) => {
                    let ghost prev = groups@.map_values(|g: (String, String)| (g.0@, g.1@));
                    let ghost pv = p@;
                    groups.push((p, string_of(body.as_slice())));
                    assert(groups@.map_values(|g: (String, String)| (g.0@, g.1@)) =~= prev.push((pv, body@)));
                },
                None => {},
            }
            current = Some(name);
            body = Vec::new();
        } else {
            if current.is_some() {
                if body.len() > 0 {
                    body.push('\n');
                }
                let ghost b0 = body@;
                let mut k: usize = 0;
                while k < line.len()
                    invariant
                        k <= line@.len(),
                        body@ == b0 + line@.take(k as int),
                    decreases line@.len() - k,
                {
                    body.push(line[k]);
                    k = k + 1;
                    assert(body@ =~= b0 + line@.take(k as int));
                }
                proof {
                    reveal_strlit("\n");
                    assert(line@.take(k as int) =~= line@);
                }
            }
        }
        i = i + 1;
    }
    assert(all.take(i as int) =~= all);
    match current {
        Some(p) => {
            let ghost prev = groups@.map_values(|g: (String, String)| (g.0@, g.1@));
            let ghost pv = p@;
            groups.push((p, string_of(body.as_slice())));
            assert(groups@.map_values(|g: (String, String)| (g.0@, g.1@)) =~= prev.push((pv, body@)));
        },
        None => {},
    }
    groups
}

/// The byte total of stats output when it fits in 64 bits, else `None`.
pub fn checked_stats_total(text: &str) -> (r: Option<u64>)
    ensures
        match r {
            Some(v) => v as nat == stats_total(text@),
            None => stats_total(text@) > u64::MAX,
        },
{
    let s = chars_of(text);
    let mut total: u64 = 0;
    let mut start: usize = 0;
    assert(s@.skip(0) =~= s@);
    while start < s.len()
        invariant
            start <= s@.len(),
            s@ == text@,
            total + stats_total(s@.skip(start as int)) == stats_total(text@),
        decreases s@.len() - start,
    {
        let ghost rest = s@.skip(start as int);
        let e = find_char(s.as_slice(), '\n', start);
        let seg = vstd::slice::slice_subrange(s.as_slice(), start, e);
        proof {
            crate::text::lemma_find_from(s@, '\n', start as int);
            crate::text::lemma_find_from_char(rest, '\n', 0, e - start);
            assert(seg@ =~= rest.take(e - start));
            if e < s.len() {
                assert(rest.skip(e - start + 1) =~= s@.skip(e + 1));
            } else {
                assert(rest.take(e - start) =~= rest);
            }
        }
        let b = line_bytes_exec(seg);
        if total > u64::MAX - b {
            return None;
        }
        total = total + b;
        if e == s.len() {
            assert(stats_total(s@.skip(s@.len() as int)) == 0);
            start = e;
        } else {
            start = e + 1;
        }
    }
    assert(s@.skip(start as int) =~= Seq::<char>::empty());
    Some(total)
}

/// Whether every group of the batch output has a byte total that fits in
/// 64 bits.
pub fn batch_totals_fit(text: &str) -> (r: bool)
    ensures
        r == totals_fit(batch_groups(text@)),
{
    let groups = split_batch_groups(text);
    let ghost gv = groups@.map_values(|g: (String, String)| (g.0@, g.1@));
    let mut i: usize = 0;
    while i < groups.len()
        invariant
            i <= groups@.len(),
            gv == groups@.map_values(|g: (String, String)| (g.0@, g.1@)),
            gv == batch_groups(text@),
            forall|j: int| 0 <= j < i ==> stats_total(#[trigger] gv[j].1) <= u64::MAX,
        decreases groups@.len() - i,
    {
        assert(gv[i as int].1 == groups@[i as int].1@);
        if checked_stats_total(groups[i].1.as_str()).is_none() {
            return false;
        }
        i = i + 1;
    }
    true
}

/// Reads the batch output: each marker's package with the byte total of the
/// lines after it, then the missing packages filled in and ordered as
/// `fill_missing_packages` does. Every group's total must fit in 64 bits.
pub fn parse_batch_output(text: &str, packages: &[String]) -> (r: Vec<(String, u64)>)
    requires
        totals_fit(batch_groups(text@)),
    ensures
        sizes_view(r@) == fill_spec(names_of(packages@), group_totals(batch_groups(text@))),
{
    let groups = split_batch_groups(text);
    let ghost gv = groups@.map_values(|g: (String, String)| (g.0@, g.1@));
    let mut results: Vec<(String, u64)> = Vec::new();
    let mut i: usize = 0;
    while i < groups.len()
        invariant
            i <= groups@.len(),
            gv == groups@.map_values(|g: (String, String)| (g.0@, g.1@)),
            gv == batch_groups(text@),
            totals_fit(gv),
            sizes_view(results@) == group_totals(gv.take(i as int)),
        decreases groups@.len() - i,
    {
        assert(gv[i as int] == (groups@[i as int].0@, groups@[i as int].1@));
        assert(stats_total(gv[i as int].1) <= u64::MAX);
        let total = parse_storage_stats_total(groups[i].1.as_str());
        let ghost prev = sizes_view(results@);
        let name = string_of(chars_of(groups[i].0.as_str()).as_slice());
        results.push((name, total));
        assert(sizes_view(results@) =~= prev.push((gv[i as int].0, total)));
        assert(group_totals(gv.take(i + 1)) =~= group_totals(gv.take(i as int)).push((gv[i as int].0, total)));
        i = i + 1;
    }
    assert(gv.take(i as int) =~= gv);
    fill_missing_packages(packages, results)
}

// ---------------------------------------------------------------------------
// Package list
// ---------------------------------------------------------------------------

/// `a` sorts before or with `b`: code point by code point, a prefix first
/// (the order of `str`).
pub open spec fn lex_le(a: Seq<char>, b: Seq<char>) -> bool
    decreases a.len(),
{
    if a.len() == 0 {
        true
    } else if b.len() == 0 {
        false
    } else if a[0] as u32 == b[0] as u32 {
        lex_le(a.drop_first(), b.drop_first())
    } else {
        (a[0] as u32) < (b[0] as u32)
    }
}

pub proof fn lemma_lex_total(a: Seq<char>, b: Seq<char>)
    ensures
        lex_le(a, b) || lex_le(b, a),
    decreases a.len(),
{
    if a.len() > 0 && b.len() > 0 && a[0] as u32 == b[0] as u32 {
        lemma_lex_total(a.drop_first(), b.drop_first());
    }
}

pub proof fn lemma_lex_trans(a: Seq<char>, b: Seq<char>, c: Seq<char>)
    requires
        lex_le(a, b),
        lex_le(b, c),
    ensures
        lex_le(a, c),
    decreases a.len(),
{
    if a.len() > 0 && b.len() > 0 && c.len() > 0 && a[0] as u32 == b[0] as u32 && b[0] as u32
        == c[0] as u32 {
        lemma_lex_trans(a.drop_first(), b.drop_first(), c.drop_first());
    }
}

/// The names are in `lex_le` order.
pub open spec fn sorted_names(s: Seq<Seq<char>>) -> bool {
    forall|i: int, j: int| 0 <= i < j < s.len() ==> lex_le(#[trigger] s[i], #[trigger] s[j])
}

pub fn lex_le_exec(a: &[char], b: &[char]) -> (r: bool)
    ensures
        r == lex_le(a@, b@),
{
    let mut i: usize = 0;
    assert(a@.skip(0) =~= a@);
    assert(b@.skip(0) =~= b@);
    while i < a.len() && i < b.len() && (a[i] as u32) == (b[i] as u32)
        invariant
            i <= a@.len(),
            i <= b@.len(),
            lex_le(a@, b@) == lex_le(a@.skip(i as int), b@.skip(i as int)),
        decreases a@.len() - i,
    {
        assert(a@.skip(i as int).drop_first() =~= a@.skip(i + 1));
        assert(b@.skip(i as int).drop_first() =~= b@.skip(i + 1));
        i = i + 1;
    }
    if i == a.len() {
        true
    } else if i == b.len() {
        false
    } else {
        (a[i] as u32) < (b[i] as u32)
    }
}

/// Sorts the names in `lex_le` order (the order of `[String]::sort`).
pub fn sort_names(names: Vec<String>) -> (r: Vec<String>)
    ensures
        sorted_names(names_of(r@)),
        names_of(r@).to_multiset() == names_of(names@).to_multiset(),
{
    let mut out: Vec<String> = Vec::new();
    let mut keys: Vec<Vec<char>> = Vec::new();
    let mut i: usize = 0;
    assert(names_of(names@.take(0)) =~= Seq::<Seq<char>>::empty());
    assert(names_of(out@) =~= Seq::<Seq<char>>::empty());
    while i < names.len()
        invariant
            i <= names@.len(),
            keys@.len() == out@.len(),
            forall|k: int| 0 <= k < out@.len() ==> #[trigger] keys@[k]@ == out@[k]@,
            sorted_names(names_of(out@)),
            names_of(out@).to_multiset() == names_of(names@.take(i as int)).to_multiset(),
        decreases names@.len() - i,
    {
        let x = string_of(chars_of(names[i].as_str()).as_slice());
        let xk = chars_of(names[i].as_str());
        let ghost old_names = names_of(out@);
        let mut pos: usize = 0;
        while pos < out.len() && lex_le_exec(keys[pos].as_slice(), xk.as_slice())
            invariant
                pos <= out@.len(),
                keys@.len() == out@.len(),
                forall|k: int| 0 <= k < out@.len() ==> #[trigger] keys@[k]@ == out@[k]@,
                forall|k: int| 0 <= k < pos ==> lex_le(#[trigger] old_names[k], xk@),
                old_names == names_of(out@),
            decreases out@.len() - pos,
        {
            pos = pos + 1;
        }
        proof {
            if pos < out@.len() {
                assert(!lex_le(old_names[pos as int], xk@));
                lemma_lex_total(old_names[pos as int], xk@);
            }
        }
        out.insert(pos, x);
        keys.insert(pos, xk);
        proof {
            let nn = names_of(out@);
            assert(nn =~= old_names.insert(pos as int, xk@));
            assert forall|a: int, b: int| 0 <= a < b < nn.len() implies lex_le(#[trigger] nn[a], #[trigger] nn[b]) by {
                if b < pos {
                } else if b == pos {
                } else if a < pos {
                    lemma_lex_trans(old_names[a], xk@, old_names[pos as int]);
                    if b - 1 > pos {
                        lemma_lex_trans(old_names[a], old_names[pos as int], old_names[b - 1]);
                    }
                } else if a == pos {
                    if b - 1 > pos {
                        lemma_lex_trans(xk@, old_names[pos as int], old_names[b - 1]);
                    }
                } else {
                }
            }
            vstd::seq_lib::to_multiset_insert(old_names, pos as int, xk@);
            assert(names_of(names@.take(i + 1)) =~= names_of(names@.take(i as int)).push(names@[i as int]@));
            vstd::seq_lib::to_multiset_build(names_of(names@.take(i as int)), names@[i as int]@);
            assert forall|k: int| 0 <= k < out@.len() implies #[trigger] keys@[k]@ == out@[k]@ by {
                if k < pos {
                } else if k == pos {
                } else {
                }
            }
        }
        i = i + 1;
    }
    assert(names@.take(i as int) =~= names@);
    out
}

/// The name that a `pm list packages` line gives: what follows `package:`,
/// trimmed.
pub open spec fn listed_package(l: Seq<char>) -> Option<Seq<char>> {
    if starts_with(l, "package:"@) {
        Some(trim(l.skip(8)))
    } else {
        None
    }
}

/// The names of `pm list packages` text, in the order of its lines.
pub open spec fn listed_packages(text: Seq<char>) -> Seq<Seq<char>> {
    lines(text).filter_map(|l: Seq<char>| listed_package(l))
}

/// The names that `pm list packages` text lists, in the order of its lines,
/// as `listed_packages` says.
pub fn parse_package_list(text: &str) -> (r: Vec<String>)
    ensures
        names_of(r@) == listed_packages(text@),
{
    let cs = chars_of(text);
    let ls = split_lines(cs.as_slice());
    let ghost all = lines(text@);
    let ghost f = |l: Seq<char>| listed_package(l);
    let mut out: Vec<String> = Vec::new();
    let pre = chars_of("package:");
    proof {
        reveal_strlit("package:");
    }
    let mut i: usize = 0;
    assert(all.take(0) =~= Seq::<Seq<char>>::empty());
    while i < ls.len()
        invariant
            i <= ls@.len() == all.len(),
            all == lines(text@),
            pre@ == "package:"@,
            f == (|l: Seq<char>| listed_package(l)),
            forall|j: int| 0 <= j < ls@.len() ==> #[trigger] ls@[j]@ == all[j],
            names_of(out@) == all.take(i as int).filter_map(f),
        decreases ls@.len() - i,
    {
        assert(all.take(i + 1).drop_last() =~= all.take(i as int));
        assert(all.take(i + 1).last() == all[i as int]);
        let line = &ls[i];
        proof {
            reveal_strlit("package:");
        }
        if has_prefix(line.as_slice(), pre.as_slice()) {
            assert(pre@.len() == 8);
            let rest = vstd::slice::slice_subrange(line.as_slice(), 8, line.len());
            assert(rest@ =~= all[i as int].skip(8));
            let t = trimmed(rest);
            let ghost prev = names_of(out@);
            out.push(string_of(t.as_slice()));
            assert(names_of(out@) =~= prev.push(t@));
        }
        assert(names_of(out@) =~= all.take(i + 1).filter_map(f));
        i = i + 1;
    }
    assert(all.take(i as int) =~= all);
    out
}

/// The arguments that list the packages.
pub open spec fn package_list_args() -> Seq<Seq<char>> {
    seq!["shell"@, "pm"@, "list"@, "packages"@]
}

/// The sorted package names of a device, given how
/// `adb -s <serial> shell pm list packages` ended: the names that its
/// decoded stdout lists, sorted; or the error of the run.
pub fn fetch_package_list(serial: &str, outcome: Result<CommandOutput, IoFailure>) -> (r: Result<
    Vec<String>,
    AdbError,
>)
    ensures
        match succeeded(outcome) {
            Some(out) => r matches Ok(v) && sorted_names(names_of(v@)) && names_of(v@).to_multiset()
                == listed_packages(lossy_utf8(out.stdout@)).to_multiset(),
            None => run_failed(serial_args(serial@, package_list_args()), outcome, r),
        },
{
    let args = ["shell", "pm", "list", "packages"];
    assert(arg_views(args@) =~= package_list_args());
    match run_adb_for_serial(serial, &args, outcome) {
        Err(e) => Err(e),
        Ok(output) => {
            let text = utf8_lossy(output.stdout.as_slice());
            let names = parse_package_list(text.as_str());
            Ok(sort_names(names))
        },
    }
}

/// The batch `b` of `n` names: from `b * BATCH_SIZE`, up to `BATCH_SIZE` of
/// them.
pub open spec fn batch_bounds(b: int, n: int) -> (int, int) {
    (b * BATCH_SIZE, if (b + 1) * BATCH_SIZE <= n {
        (b + 1) * BATCH_SIZE
    } else {
        n
    })
}

/// The packages split into batches of `BATCH_SIZE`: as many as it takes to
/// hold them all, every batch full but the last.
pub fn package_batches(packages: &Vec<String>) -> (r: Vec<Vec<String>>)
    ensures
        r@.len() * BATCH_SIZE >= packages@.len(),
        r@.len() > 0 ==> (r@.len() - 1) * BATCH_SIZE < packages@.len(),
        forall|b: int| 0 <= b < r@.len() ==> names_of(#[trigger] r@[b]@) == names_of(packages@).subrange(
            batch_bounds(b, packages@.len() as int).0,
            batch_bounds(b, packages@.len() as int).1,
        ),
{
    let mut out: Vec<Vec<String>> = Vec::new();
    let mut start: usize = 0;
    let n = packages.len();
    while start < n
        invariant
            n == packages@.len(),
            start <= n,
            start < n ==> start == out@.len() * BATCH_SIZE,
            start == n ==> out@.len() * BATCH_SIZE >= n,
            out@.len() > 0 ==> (out@.len() - 1) * BATCH_SIZE < n,
            forall|b: int| 0 <= b < out@.len() ==> names_of(#[trigger] out@[b]@) == names_of(packages@).subrange(
                batch_bounds(b, n as int).0,
                batch_bounds(b, n as int).1,
            ),
        decreases n - start,
    {
        let end = if n - start > BATCH_SIZE {
            start + BATCH_SIZE
        } else {
            n
        };
        let mut batch: Vec<String> = Vec::new();
        let mut k = start;
        assert(names_of(batch@) =~= names_of(packages@).subrange(start as int, start as int));
        while k < end
            invariant
                start <= k <= end <= n == packages@.len(),
                names_of(batch@) == names_of(packages@).subrange(start as int, k as int),
            decreases end - k,
        {
            let ghost prev = batch@;
            let x = string_of(chars_of(packages[k].as_str()).as_slice());
            batch.push(x);
            assert(names_of(batch@) =~= names_of(prev).push(packages@[k as int]@));
            assert(names_of(batch@) =~= names_of(packages@).subrange(start as int, k + 1));
            k = k + 1;
        }
        let ghost b = out@.len() as int;
        assert(batch_bounds(b, n as int) == (start as int, end as int));
        out.push(batch);
        start = end;
    }
    out
}

/// The arguments that run the batch script.
pub open spec fn batch_args(script: Seq<char>) -> Seq<Seq<char>> {
    seq!["shell"@, "sh"@, "-c"@, script]
}

/// The storage of a batch of packages, given how the batch script (see
/// `build_batch_script`) run with `adb -s <serial> shell sh -c` ended: the
/// reading of its decoded stdout by `parse_batch_output`, or the error of the
/// run. `None` when a package's byte total would not fit in 64 bits. An empty
/// batch runs nothing: its result is an empty list, whatever `outcome` holds.
pub fn fetch_package_storage_batch(
    serial: &str,
    packages: &[String],
    outcome: Result<CommandOutput, IoFailure>,
) -> (r: Option<Result<Vec<(String, u64)>, AdbError>>)
    ensures
        packages@.len() == 0 ==> (r matches Some(Ok(v)) && v@.len() == 0),
        packages@.len() > 0 ==> match succeeded(outcome) {
            Some(out) => if totals_fit(batch_groups(lossy_utf8(out.stdout@))) {
                r matches Some(Ok(v)) && sizes_view(v@) == fill_spec(
                    names_of(packages@),
                    group_totals(batch_groups(lossy_utf8(out.stdout@))),
                )
            } else {
                r is None
            },
            None => r matches Some(res) && run_failed(
                serial_args(serial@, batch_args(joined_pieces(names_of(packages@)))),
                outcome,
                res,
            ),
        },
{
    if packages.len() == 0 {
        return Some(Ok(Vec::new()));
    }
    let script = build_batch_script(packages);
    let args = ["shell", "sh", "-c", script.as_str()];
    assert(arg_views(args@) =~= batch_args(joined_pieces(names_of(packages@))));
    match run_adb_for_serial(serial, &args, outcome) {
        Err(e) => Some(Err(e)),
        Ok(output) => {
            let text = utf8_lossy(output.stdout.as_slice());
            if !batch_totals_fit(text.as_str()) {
                return None;
            }
            Some(Ok(parse_batch_output(text.as_str(), packages)))
        },
    }
}

} // verus!
