//! What the panels show that does not depend on the screen: panel titles,
//! shortened package names, device states, the order of network rows, and
//! the tag highlights of log lines.

use vstd::prelude::*;

use crate::app_state::LogcatTagFilter;
use crate::device::DeviceState;
use crate::text::{char_bytes, char_bytes_exec, chars_of, concat, lemma_encode_push, lemma_scalar_len,
    lowercase, string_of, to_lowercase};

verus! {

/// The panels of the terminal.
#[derive(Debug, Clone, Copy, PartialEq, Eq, Hash)]
pub enum PanelId {
    Devices,
    Ram,
    Storage,
    LogcatAll,
    LogcatErrors,
    Insight,
    SystemStats,
    Network,
    Protocols,
}

impl PanelId {
    /// The title shown above the panel.
    pub fn title(self) -> (r: &'static str)
        ensures
            r@ == match self {
                PanelId::Devices => "Devices"@,
                PanelId::Ram => "RAM"@,
                PanelId::Storage => "Storage"@,
                PanelId::LogcatAll => "Logcat (All)"@,
                PanelId::LogcatErrors => "Logcat (Errors)"@,
                PanelId::Insight => "Insight"@,
                PanelId::SystemStats => "Storage Details"@,
                PanelId::Network => "Network Activity"@,
                PanelId::Protocols => "App Traffic"@,
            },
    {
        match self {
            PanelId::Devices => "Devices",
            PanelId::Ram => "RAM",
            PanelId::Storage => "Storage",
            PanelId::LogcatAll => "Logcat (All)",
            PanelId::LogcatErrors => "Logcat (Errors)",
            PanelId::Insight => "Insight",
            PanelId::SystemStats => "Storage Details",
            PanelId::Network => "Network Activity",
            PanelId::Protocols => "App Traffic",
        }
    }
}

/// The longest package name shown whole, in bytes.
pub const MAX_PACKAGE_NAME_BYTES: usize = 42;

/// The UTF-8 length of `s`.
pub open spec fn byte_len(s: Seq<char>) -> nat {
    vstd::utf8::encode_utf8(s).len()
}

/// Whether some prefix of `s` is exactly `n` bytes long.
pub open spec fn has_prefix_of_bytes(s: Seq<char>, n: nat) -> bool {
    exists|k: int| 0 <= k <= s.len() && #[trigger] byte_len(s.take(k)) == n
}

proof fn lemma_byte_len_take(s: Seq<char>, k: int)
    requires
        0 <= k < s.len(),
    ensures
        byte_len(s.take(k + 1)) == byte_len(s.take(k)) + char_bytes(s[k]),
{
    assert(s.take(k + 1) =~= s.take(k).push(s[k]));
    lemma_encode_push(s.take(k), s[k]);
    lemma_scalar_len(s[k]);
}

proof fn lemma_byte_len_mono(s: Seq<char>, j: int, k: int)
    requires
        0 <= j < k <= s.len(),
    ensures
        byte_len(s.take(j)) < byte_len(s.take(k)),
    decreases k - j,
{
    lemma_byte_len_take(s, k - 1);
    if j < k - 1 {
        lemma_byte_len_mono(s, j, k - 1);
    }
}

/// A package name as shown: whole when at most `MAX_PACKAGE_NAME_BYTES`
/// bytes, else its first 39 bytes and `...`.
pub open spec fn shown_package(name: Seq<char>) -> Seq<char> {
    if byte_len(name) <= MAX_PACKAGE_NAME_BYTES {
        name
    } else {
        name.take(choose|k: int| 0 <= k <= name.len() && #[trigger] byte_len(name.take(k)) == 39) + "..."@
    }
}

/// Shortens a package name for display, as `shown_package` says. A name of
/// more than `MAX_PACKAGE_NAME_BYTES` bytes must have a character boundary
/// at byte 39 (its first 39 bytes are cut as text).
pub fn truncate_package_name(name: &str) -> (r: String)
    requires
        byte_len(name@) <= MAX_PACKAGE_NAME_BYTES || has_prefix_of_bytes(name@, 39),
    ensures
        r@ == shown_package(name@),
{
    let c = chars_of(name);
    let mut total: usize = 0;
    let mut k: usize = 0;
    assert(c@.take(0) =~= Seq::<char>::empty());
    while k < c.len() && total < 43
        invariant
            k <= c@.len(),
            c@ == name@,
            total == byte_len(c@.take(k as int)),
            total <= 46,
        decreases c@.len() - k,
    {
        proof {
            lemma_byte_len_take(c@, k as int);
        }
        total = total + char_bytes_exec(c[k]);
        k = k + 1;
    }
    if total <= MAX_PACKAGE_NAME_BYTES {
        assert(c@.take(k as int) =~= c@);
        return string_of(c.as_slice());
    }
    proof {
        assert(c@.take(c@.len() as int) =~= c@);
        if k < c@.len() {
            lemma_byte_len_mono(c@, k as int, c@.len() as int);
        } else {
            assert(c@.take(k as int) =~= c@);
        }
        assert(byte_len(name@) > MAX_PACKAGE_NAME_BYTES);
    }
    let mut j: usize = 0;
    let mut b: usize = 0;
    while b < 39
        invariant
            j <= c@.len(),
            c@ == name@,
            b == byte_len(c@.take(j as int)),
            b <= 39,
            has_prefix_of_bytes(name@, 39),
            byte_len(name@) > MAX_PACKAGE_NAME_BYTES,
        decreases 39 - b,
    {
        let ghost w = choose|w: int| 0 <= w <= name@.len() && #[trigger] byte_len(name@.take(w)) == 39;
        proof {
            assert(j < w) by {
                if w < j {
                    lemma_byte_len_mono(c@, w, j as int);
                }
            }
            lemma_byte_len_take(c@, j as int);
        }
        assert(j < c.len());
        let nb = b + char_bytes_exec(c[j]);
        proof {
            if nb > 39 {
                if w > j {
                    if w > j + 1 {
                        lemma_byte_len_mono(c@, j + 1, w);
                    }
                }
            }
        }
        b = nb;
        j = j + 1;
    }
    let ghost w = choose|w: int| 0 <= w <= name@.len() && #[trigger] byte_len(name@.take(w)) == 39;
    proof {
        if w < j {
            lemma_byte_len_mono(c@, w, j as int);
        } else if w > j {
            lemma_byte_len_mono(c@, j as int, w);
        }
    }
    let head = string_of(vstd::slice::slice_subrange(c.as_slice(), 0, j));
    assert(head@ =~= name@.take(w));
    concat(head.as_str(), "...")
}

/// The word shown for a device state.
pub fn device_state_label(state: &DeviceState) -> (r: &str)
    ensures
        r@ == crate::device::state_text(*state),
{
    match state {
        DeviceState::Device => "device",
        DeviceState::Offline => "offline",
        DeviceState::Unauthorized => "unauthorized",
        DeviceState::Other(value) => value.as_str(),
    }
}

/// A display row of the network activity table.
#[derive(Clone, Debug)]
pub struct NetworkRow {
    pub interface: String,
    pub transport: String,
    pub rx: String,
    pub tx: String,
    pub rate: String,
}

/// Interface `i` comes before `j`: more bytes sent first, ties in list order.
pub open spec fn tx_before(tx: Seq<u64>, i: int, j: int) -> bool {
    tx[i] > tx[j] || (tx[i] == tx[j] && i < j)
}

/// The indices of the interfaces, most bytes sent first (ties keep their
/// order): each index once, in `tx_before` order.
pub fn order_by_tx(tx: &Vec<u64>) -> (r: Vec<usize>)
    ensures
        r@.len() == tx@.len(),
        forall|k: int| 0 <= k < r@.len() ==> (#[trigger] r@[k]) < tx@.len(),
        forall|k: int, m: int| 0 <= k < m < r@.len() ==> tx_before(tx@, #[trigger] r@[k] as int, #[trigger] r@[m] as int),
{
    let mut out: Vec<usize> = Vec::new();
    let mut i: usize = 0;
    while i < tx.len()
        invariant
            i <= tx@.len(),
            out@.len() == i,
            forall|k: int| 0 <= k < out@.len() ==> (#[trigger] out@[k]) < i,
            forall|k: int, m: int| 0 <= k < m < out@.len() ==> tx_before(tx@, #[trigger] out@[k] as int, #[trigger] out@[m] as int),
        decreases tx@.len() - i,
    {
        let mut pos: usize = 0;
        while pos < out.len() && tx[out[pos]] >= tx[i]
            invariant
                pos <= out@.len(),
                i < tx@.len(),
                forall|k: int| 0 <= k < out@.len() ==> (#[trigger] out@[k]) < i,
                forall|k: int| 0 <= k < pos ==> tx@[#[trigger] out@[k] as int] >= tx@[i as int],
            decreases out@.len() - pos,
        {
            pos = pos + 1;
        }
        let ghost old_out = out@;
        out.insert(pos, i);
        proof {
            assert forall|k: int| 0 <= k < out@.len() implies (#[trigger] out@[k]) < i + 1 by {
                if k < pos {
                    assert(out@[k] == old_out[k]);
                } else if k > pos {
                    assert(out@[k] == old_out[k - 1]);
                }
            }
            assert forall|k: int, m: int| 0 <= k < m < out@.len() implies tx_before(tx@, #[trigger] out@[k] as int, #[trigger] out@[m] as int) by {
                if m < pos {
                    assert(out@[k] == old_out[k] && out@[m] == old_out[m]);
                } else if m == pos {
                    assert(out@[k] == old_out[k]);
                } else if k < pos {
                    assert(out@[k] == old_out[k] && out@[m] == old_out[m - 1]);
                    assert(tx@[old_out[pos as int] as int] < tx@[i as int]);
                } else if k == pos {
                    assert(out@[m] == old_out[m - 1]);
                    assert(tx@[old_out[pos as int] as int] < tx@[i as int]);
                } else {
                    assert(out@[k] == old_out[k - 1] && out@[m] == old_out[m - 1]);
                }
            }
        }
        i = i + 1;
    }
    out
}


// ---------------------------------------------------------------------------
// Tag highlights
// ---------------------------------------------------------------------------

/// A byte range of the lower-cased log text that a tag filter matches, with
/// the filter's color.
#[derive(Clone, Copy, Debug, PartialEq, Eq, Structural)]
pub struct HighlightRange {
    pub start: usize,
    pub end: usize,
    pub color_index: usize,
}

/// Whether `n` occurs in `h` at byte `i`.
pub open spec fn occurs_bytes(h: Seq<u8>, n: Seq<u8>, i: int) -> bool {
    0 <= i && i + n.len() <= h.len() && h.subrange(i, i + n.len()) == n
}

/// The first byte at or after `from` where `n` occurs in `h`, or -1.
pub open spec fn find_bytes(h: Seq<u8>, n: Seq<u8>, from: int) -> int
    decreases h.len() + 1 - from,
{
    if from < 0 || from + n.len() > h.len() {
        -1
    } else if occurs_bytes(h, n, from) {
        from
    } else {
        find_bytes(h, n, from + 1)
    }
}

proof fn lemma_find_bytes(h: Seq<u8>, n: Seq<u8>, from: int)
    ensures
        find_bytes(h, n, from) == -1 || (from <= find_bytes(h, n, from) && occurs_bytes(
            h,
            n,
            find_bytes(h, n, from),
        )),
    decreases h.len() + 1 - from,
{
    if !(from < 0 || from + n.len() > h.len()) && !occurs_bytes(h, n, from) {
        lemma_find_bytes(h, n, from + 1);
    }
}

/// The successive, non-overlapping matches of a non-empty `n` in `h` from
/// byte `from` on (each search resumes after the previous match), as
/// (start, end, color).
pub open spec fn needle_matches(h: Seq<u8>, n: Seq<u8>, color: int, from: int) -> Seq<(int, int, int)>
    decreases h.len() - from,
{
    if n.len() == 0 || from < 0 || from > h.len() {
        seq![]
    } else {
        let p = find_bytes(h, n, from);
        if p < from || p + n.len() > h.len() {
            seq![]
        } else {
            seq![(p, p + n.len(), color)] + needle_matches(h, n, color, p + n.len())
        }
    }
}

/// The matches of each needle in turn.
pub open spec fn all_matches(h: Seq<u8>, needles: Seq<(Seq<u8>, int)>) -> Seq<(int, int, int)>
    decreases needles.len(),
{
    if needles.len() == 0 {
        seq![]
    } else {
        all_matches(h, needles.drop_last()) + needle_matches(h, needles.last().0, needles.last().1, 0)
    }
}

/// The lower-cased tag of each filter, in UTF-8, with its color.
pub open spec fn filter_needles(tag_filters: Seq<LogcatTagFilter>) -> Seq<(Seq<u8>, int)> {
    tag_filters.map_values(
        |f: LogcatTagFilter| (vstd::utf8::encode_utf8(lowercase(f.tag@)), f.color_index as int),
    )
}

/// `a` comes before `b`: it starts earlier, or at the same byte and is longer.
pub open spec fn starts_before(a: (int, int, int), b: (int, int, int)) -> bool {
    a.0 < b.0 || (a.0 == b.0 && a.1 - a.0 > b.1 - b.0)
}

/// Among the first `k` matches, the index of the first one in
/// `starts_before` order that starts at or after `pos` (the earlier index
/// on ties), or -1.
pub open spec fn best_match(ms: Seq<(int, int, int)>, pos: int, k: int) -> int
    decreases k,
{
    if k <= 0 {
        -1
    } else {
        let b = best_match(ms, pos, k - 1);
        let c = ms[k - 1];
        if c.0 >= pos && (b < 0 || starts_before(c, ms[b])) {
            k - 1
        } else {
            b
        }
    }
}

/// The matches kept for highlighting from byte `pos` on: the first match in
/// `starts_before` order that starts there or later, then the same from its
/// end (so kept ranges never overlap).
pub open spec fn kept_matches(ms: Seq<(int, int, int)>, pos: int, limit: int) -> Seq<(int, int, int)>
    decreases limit - pos,
{
    let b = best_match(ms, pos, ms.len() as int);
    if b < 0 || ms[b].1 <= pos || ms[b].1 > limit {
        seq![]
    } else {
        seq![ms[b]] + kept_matches(ms, ms[b].1, limit)
    }
}

/// Every match is a non-empty range of the text.
pub open spec fn ranges_in(ms: Seq<(int, int, int)>, limit: int) -> bool {
    forall|k: int| 0 <= k < ms.len() ==> 0 <= (#[trigger] ms[k]).0 < ms[k].1 <= limit
}

proof fn lemma_needle_matches_in(h: Seq<u8>, n: Seq<u8>, color: int, from: int)
    ensures
        ranges_in(needle_matches(h, n, color, from), h.len() as int),
    decreases h.len() - from,
{
    if !(n.len() == 0 || from < 0 || from > h.len()) {
        let p = find_bytes(h, n, from);
        if !(p < from || p + n.len() > h.len()) {
            lemma_needle_matches_in(h, n, color, p + n.len());
            let rest = needle_matches(h, n, color, p + n.len());
            let all = needle_matches(h, n, color, from);
            assert forall|k: int| 0 <= k < all.len() implies 0 <= (#[trigger] all[k]).0 < all[k].1 <= h.len() by {
                if k > 0 {
                    assert(all[k] == rest[k - 1]);
                }
            }
        }
    }
}

proof fn lemma_all_matches_in(h: Seq<u8>, needles: Seq<(Seq<u8>, int)>)
    ensures
        ranges_in(all_matches(h, needles), h.len() as int),
    decreases needles.len(),
{
    if needles.len() > 0 {
        lemma_all_matches_in(h, needles.drop_last());
        lemma_needle_matches_in(h, needles.last().0, needles.last().1, 0);
        let a = all_matches(h, needles.drop_last());
        let b = needle_matches(h, needles.last().0, needles.last().1, 0);
        assert forall|k: int| 0 <= k < (a + b).len() implies 0 <= (#[trigger] (a + b)[k]).0 < (a + b)[k].1 <= h.len() by {
            if k < a.len() {
                assert((a + b)[k] == a[k]);
            } else {
                assert((a + b)[k] == b[k - a.len()]);
            }
        }
    }
}

proof fn lemma_best_match(ms: Seq<(int, int, int)>, pos: int, k: int)
    requires
        k <= ms.len(),
    ensures
        best_match(ms, pos, k) == -1 || (0 <= best_match(ms, pos, k) < k && ms[best_match(ms, pos, k)].0 >= pos),
    decreases k,
{
    if k > 0 {
        lemma_best_match(ms, pos, k - 1);
    }
}

/// The kept matches lie from `pos` on, in order, without overlapping.
proof fn lemma_kept_ordered(ms: Seq<(int, int, int)>, pos: int, limit: int)
    requires
        ranges_in(ms, limit),
    ensures
        forall|i: int| 0 <= i < kept_matches(ms, pos, limit).len() ==> pos <= (#[trigger] kept_matches(ms, pos, limit)[i]).0,
        forall|i: int, j: int|
            0 <= i < j < kept_matches(ms, pos, limit).len() ==> (#[trigger] kept_matches(ms, pos, limit)[i]).1
                <= (#[trigger] kept_matches(ms, pos, limit)[j]).0,
        ranges_in(kept_matches(ms, pos, limit), limit),
    decreases limit - pos,
{
    let b = best_match(ms, pos, ms.len() as int);
    lemma_best_match(ms, pos, ms.len() as int);
    if !(b < 0 || ms[b].1 <= pos || ms[b].1 > limit) {
        let next = ms[b].1;
        lemma_kept_ordered(ms, next, limit);
        let rest = kept_matches(ms, next, limit);
        let all = kept_matches(ms, pos, limit);
        assert(all == seq![ms[b]] + rest);
        assert(ms[b].0 < ms[b].1);
        assert forall|i: int| 0 <= i < all.len() implies pos <= (#[trigger] all[i]).0 by {
            if i > 0 {
                assert(all[i] == rest[i - 1]);
            }
        }
        assert forall|i: int, j: int| 0 <= i < j < all.len() implies (#[trigger] all[i]).1 <= (#[trigger] all[j]).0 by {
            assert(all[j] == rest[j - 1]);
            if i > 0 {
                assert(all[i] == rest[i - 1]);
            }
        }
        assert forall|k: int| 0 <= k < all.len() implies 0 <= (#[trigger] all[k]).0 < all[k].1 <= limit by {
            if k > 0 {
                assert(all[k] == rest[k - 1]);
            }
        }
    }
}

/// Highlighted ranges never overlap: they are non-empty byte ranges of the
/// lower-cased text, in order.
pub proof fn highlights_are_disjoint(text: Seq<char>, tag_filters: Seq<LogcatTagFilter>)
    ensures
        ranges_in(highlight_spec(text, tag_filters), vstd::utf8::encode_utf8(lowercase(text)).len() as int),
        forall|i: int, j: int|
            0 <= i < j < highlight_spec(text, tag_filters).len() ==> (#[trigger] highlight_spec(text, tag_filters)[i]).1
                <= (#[trigger] highlight_spec(text, tag_filters)[j]).0,
{
    let h = vstd::utf8::encode_utf8(lowercase(text));
    lemma_all_matches_in(h, filter_needles(tag_filters));
    lemma_kept_ordered(all_matches(h, filter_needles(tag_filters)), 0, h.len() as int);
}

/// The highlighted ranges of a log text: the kept matches of the filters'
/// lower-cased tags in the lower-cased text.
pub open spec fn highlight_spec(text: Seq<char>, tag_filters: Seq<LogcatTagFilter>) -> Seq<(int, int, int)> {
    let h = vstd::utf8::encode_utf8(lowercase(text));
    kept_matches(all_matches(h, filter_needles(tag_filters)), 0, h.len() as int)
}

/// The ranges as (start, end, color).
pub open spec fn range_views(v: Seq<HighlightRange>) -> Seq<(int, int, int)> {
    v.map_values(|r: HighlightRange| (r.start as int, r.end as int, r.color_index as int))
}

fn occurs_at_exec(h: &[u8], n: &[u8], i: usize) -> (r: bool)
    requires
        i + n@.len() <= h@.len(),
    ensures
        r == occurs_bytes(h@, n@, i as int),
{
    let hl = h.len();
    let mut j: usize = 0;
    while j < n.len()
        invariant
            j <= n@.len(),
            hl == h@.len(),
            i + n@.len() <= h@.len(),
            forall|k: int| 0 <= k < j ==> h@[i + k] == n@[k],
        decreases n@.len() - j,
    {
        assert(i + j < h@.len());
        if h[i + j] != n[j] {
            assert(h@.subrange(i as int, i + n@.len())[j as int] != n@[j as int]);
            return false;
        }
        j = j + 1;
    }
    assert(h@.subrange(i as int, i + n@.len()) =~= n@);
    true
}

fn find_bytes_exec(h: &[u8], n: &[u8], from: usize) -> (r: Option<usize>)
    requires
        from <= h@.len(),
    ensures
        match r {
            Some(p) => p == find_bytes(h@, n@, from as int),
            None => find_bytes(h@, n@, from as int) == -1,
        },
{
    if n.len() > h.len() || from > h.len() - n.len() {
        return None;
    }
    let last = h.len() - n.len();
    let mut i = from;
    while i <= last
        invariant
            from <= i,
            last == h@.len() - n@.len(),
            find_bytes(h@, n@, from as int) == find_bytes(h@, n@, i as int),
        decreases h@.len() + 1 - i,
    {
        if occurs_at_exec(h, n, i) {
            return Some(i);
        }
        if i == last {
            assert(find_bytes(h@, n@, i + 1) == -1);
            return None;
        }
        i = i + 1;
    }
    None
}

fn push_needle_matches(all: &mut Vec<(usize, usize, usize)>, h: &[u8], n: &[u8], color: usize)
    requires
        n@.len() > 0,
    ensures
        triple_views(final(all)@) == triple_views(old(all)@) + needle_matches(h@, n@, color as int, 0),
{
    let ghost base = triple_views(all@);
    let mut from: usize = 0;
    while from <= h.len()
        invariant
            n@.len() > 0,
            base == triple_views(old(all)@),
            triple_views(all@) + needle_matches(h@, n@, color as int, from as int) == base + needle_matches(
                h@,
                n@,
                color as int,
                0,
            ),
        decreases h@.len() + 1 - from,
    {
        proof {
            lemma_find_bytes(h@, n@, from as int);
        }
        match find_bytes_exec(h, n, from) {
            None => {
                assert(needle_matches(h@, n@, color as int, from as int) =~= Seq::<(int, int, int)>::empty());
                assert(triple_views(all@) =~= base + needle_matches(h@, n@, color as int, 0));
                return;
            },
            Some(p) => {
                let ghost prev = triple_views(all@);
                let e = p + n.len();
                all.push((p, e, color));
                assert(triple_views(all@) =~= prev.push((p as int, e as int, color as int)));
                assert(needle_matches(h@, n@, color as int, from as int) == seq![
                    (p as int, e as int, color as int),
                ] + needle_matches(h@, n@, color as int, e as int));
                assert(triple_views(all@) + needle_matches(h@, n@, color as int, e as int) =~= prev
                    + needle_matches(h@, n@, color as int, from as int));
                from = e;
            },
        }
    }
    assert(needle_matches(h@, n@, color as int, from as int) =~= Seq::<(int, int, int)>::empty());
    assert(triple_views(all@) =~= base + needle_matches(h@, n@, color as int, 0));
}

/// The triples as integers.
pub open spec fn triple_views(v: Seq<(usize, usize, usize)>) -> Seq<(int, int, int)> {
    v.map_values(|t: (usize, usize, usize)| (t.0 as int, t.1 as int, t.2 as int))
}

fn best_match_exec(ms: &Vec<(usize, usize, usize)>, pos: usize) -> (r: Option<usize>)
    ensures
        match r {
            Some(b) => b as int == best_match(triple_views(ms@), pos as int, ms@.len() as int) && b < ms@.len(),
            None => best_match(triple_views(ms@), pos as int, ms@.len() as int) == -1,
        },
{
    let ghost v = triple_views(ms@);
    let mut cur: Option<usize> = None;
    let mut k: usize = 0;
    while k < ms.len()
        invariant
            k <= ms@.len(),
            v == triple_views(ms@),
            match cur {
                Some(b) => b as int == best_match(v, pos as int, k as int) && b < k,
                None => best_match(v, pos as int, k as int) == -1,
            },
        decreases ms@.len() - k,
    {
        let c = ms[k];
        let take = c.0 >= pos && match cur {
            None => true,
            Some(b) => {
                let d = ms[b];
                c.0 < d.0 || (c.0 == d.0 && c.1 > d.1)
            },
        };
        proof {
            let b = best_match(v, pos as int, k as int);
            if b >= 0 {
                assert(v[b] == (ms@[b].0 as int, ms@[b].1 as int, ms@[b].2 as int));
            }
            assert(v[k as int] == (c.0 as int, c.1 as int, c.2 as int));
        }
        if take {
            cur = Some(k);
        }
        k = k + 1;
    }
    cur
}

/// The byte ranges of `text`, lower-cased, to highlight for the tag filters,
/// in order, as `highlight_spec` says: every non-overlapping match of each
/// filter's lower-cased tag, then, from the start of the text, the earliest
/// (longest on ties, first filter on full ties) match that does not overlap
/// the ranges kept before it.
pub fn highlight_ranges(text: &str, tag_filters: &[LogcatTagFilter]) -> (r: Vec<HighlightRange>)
    ensures
        range_views(r@) == highlight_spec(text@, tag_filters@),
{
    let lower = to_lowercase(text);
    let h = lower.as_str().as_bytes();
    let ghost needles = filter_needles(tag_filters@);
    let mut all: Vec<(usize, usize, usize)> = Vec::new();
    let mut i: usize = 0;
    assert(needles.take(0) =~= Seq::<(Seq<u8>, int)>::empty());
    while i < tag_filters.len()
        invariant
            i <= tag_filters@.len(),
            needles == filter_needles(tag_filters@),
            h@ == vstd::utf8::encode_utf8(lowercase(text@)),
            triple_views(all@) == all_matches(h@, needles.take(i as int)),
        decreases tag_filters@.len() - i,
    {
        let t = to_lowercase(tag_filters[i].tag.as_str());
        let n = t.as_str().as_bytes();
        let color = tag_filters[i].color_index;
        assert(needles.take(i + 1).drop_last() =~= needles.take(i as int));
        assert(needles.take(i + 1).last() == needles[i as int]);
        assert(needles[i as int] == (n@, color as int));
        if n.len() > 0 {
            push_needle_matches(&mut all, h, n, color);
        } else {
            assert(needle_matches(h@, n@, color as int, 0) =~= Seq::<(int, int, int)>::empty());
            assert(triple_views(all@) =~= all_matches(h@, needles.take(i + 1)));
        }
        i = i + 1;
    }
    assert(needles.take(i as int) =~= needles);
    let ghost ms = triple_views(all@);
    let ghost limit = h@.len() as int;
    let mut out: Vec<HighlightRange> = Vec::new();
    let mut pos: usize = 0;
    let mut done = false;
    while !done && pos <= h.len()
        invariant
            ms == triple_views(all@),
            limit == h@.len(),
            range_views(out@) + kept_matches(ms, pos as int, limit) == kept_matches(ms, 0, limit),
            done ==> kept_matches(ms, pos as int, limit) == Seq::<(int, int, int)>::empty(),
        decreases h@.len() + 1 - pos, (if done {
            0int
        } else {
            1int
        }),
    {
        match best_match_exec(&all, pos) {
            None => {
                assert(kept_matches(ms, pos as int, limit) =~= Seq::<(int, int, int)>::empty());
                done = true;
            },
            Some(b) => {
                let m = all[b];
                assert(ms[b as int] == (m.0 as int, m.1 as int, m.2 as int));
                if m.1 <= pos || m.1 > h.len() {
                    assert(kept_matches(ms, pos as int, limit) =~= Seq::<(int, int, int)>::empty());
                    done = true;
                } else {
                    let ghost prev = range_views(out@);
                    out.push(HighlightRange { start: m.0, end: m.1, color_index: m.2 });
                    assert(range_views(out@) =~= prev.push(ms[b as int]));
                    assert(range_views(out@) + kept_matches(ms, m.1 as int, limit) =~= prev + kept_matches(
                        ms,
                        pos as int,
                        limit,
                    ));
                    pos = m.1;
                }
            },
        }
    }
    if !done {
        let ghost b = best_match(ms, pos as int, ms.len() as int);
        assert(kept_matches(ms, pos as int, limit) =~= Seq::<(int, int, int)>::empty());
    }
    assert(range_views(out@) =~= kept_matches(ms, 0, limit));
    out
}

} // verus!
