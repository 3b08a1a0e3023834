//! The terminal's state that does not depend on the screen: log buffers and
//! their filters, device selection, and per-app storage rows.

use std::collections::VecDeque;
use std::hash::Hasher;

use vstd::prelude::*;

use crate::app_storage::AppStorageUpdate;
use crate::client::InsightUpdate;
use crate::device::{DeviceInfo, DeviceState};
use crate::logcat::LogEntry;
use crate::reduce::{digest_of, InsightSnapshot};
use crate::app_storage::{lemma_lex_total, lemma_lex_trans, lex_le, lex_le_exec};
use crate::protocols::{eq_ignore_ascii_case, ascii_lower};
use crate::textmap::{key_set, TextMap};
use crate::text::{chars_of, contains, contains_exec, lowercase, same_chars, string_of, to_lowercase,
    trim, trimmed};

verus! {

broadcast use vstd::std_specs::vecdeque::group_vec_dequeue_axioms;

/// The most log lines a buffer keeps.
pub const MAX_LOG_LINES: usize = 10_000;

/// The most log entries taken from a stream per frame.
pub const MAX_DRAIN_PER_FRAME: usize = 500;

/// The number of highlight colors for tag filters.
pub const TAG_PALETTE_LEN: usize = 8;

// ---------------------------------------------------------------------------
// Log lines
// ---------------------------------------------------------------------------

/// A log entry with its two display texts, and when it was received (in
/// nanoseconds on a monotonic clock).
#[derive(Clone)]
pub struct CachedLogLine {
    pub full: String,
    pub compact: String,
    pub level: char,
    pub tag: String,
    pub message: String,
    pub received_at: u64,
}

impl CachedLogLine {
    /// The text shown with timestamps, pid and tid.
    pub open spec fn full_text(&self) -> Seq<char> {
        self.full@
    }

    /// The text shown without them.
    pub open spec fn compact_text(&self) -> Seq<char> {
        self.compact@
    }

    /// The text shown for the line.
    pub open spec fn shown(&self, show_timestamp: bool) -> Seq<char> {
        if show_timestamp {
            self.full_text()
        } else {
            self.compact_text()
        }
    }

    /// The line of `entry` received at `received_at`.
    pub fn from_entry(entry: &LogEntry, received_at: u64) -> (r: CachedLogLine)
        ensures
            r.full_text() == entry.text(true),
            r.compact_text() == entry.text(false),
            r.level == entry.level,
            r.tag@ == entry.tag@,
            r.message@ == entry.message@,
            r.received_at == received_at,
    {
        CachedLogLine {
            full: entry.format_line_with_timestamp(true),
            compact: entry.format_line_with_timestamp(false),
            level: entry.level,
            tag: string_of(chars_of(entry.tag.as_str()).as_slice()),
            message: string_of(chars_of(entry.message.as_str()).as_slice()),
            received_at,
        }
    }

    /// The text shown for the line.
    pub fn display(&self, show_timestamp: bool) -> (r: &str)
        ensures
            r@ == self.shown(show_timestamp),
    {
        if show_timestamp {
            self.full.as_str()
        } else {
            self.compact.as_str()
        }
    }

    /// Whether the lower-cased full text contains `filter_lower`.
    pub fn matches_filter(&self, filter_lower: &str) -> (r: bool)
        ensures
            r == contains(lowercase(self.full_text()), filter_lower@),
    {
        let lower = to_lowercase(self.full.as_str());
        let h = chars_of(lower.as_str());
        let n = chars_of(filter_lower);
        contains_exec(h.as_slice(), n.as_slice())
    }

    /// Whether the shown text, lower-cased, contains every filter's tag,
    /// lower-cased (always, without filters).
    pub fn matches_tag_filters(&self, tag_filters: &[LogcatTagFilter], show_timestamps: bool) -> (r: bool)
        ensures
            r == forall|i: int| 0 <= i < tag_filters@.len() ==> contains(
                lowercase(self.shown(show_timestamps)),
                lowercase(#[trigger] tag_filters@[i].tag@),
            ),
    {
        if tag_filters.len() == 0 {
            return true;
        }
        let shown = to_lowercase(self.display(show_timestamps));
        let h = chars_of(shown.as_str());
        let mut i: usize = 0;
        while i < tag_filters.len()
            invariant
                i <= tag_filters@.len(),
                h@ == lowercase(self.shown(show_timestamps)),
                forall|j: int| 0 <= j < i ==> contains(h@, lowercase(#[trigger] tag_filters@[j].tag@)),
            decreases tag_filters@.len() - i,
        {
            let t = to_lowercase(tag_filters[i].tag.as_str());
            let n = chars_of(t.as_str());
            if !contains_exec(h.as_slice(), n.as_slice()) {
                return false;
            }
            i = i + 1;
        }
        true
    }
}

/// The lines of `lines` that a text filter keeps: all of them for a blank
/// filter; else those whose lower-cased full text contains the trimmed,
/// lower-cased filter.
pub open spec fn kept_by_filter(lines: Seq<CachedLogLine>, filter: Seq<char>, i: int) -> bool {
    trim(filter).len() == 0 || contains(lowercase(lines[i].full_text()), lowercase(trim(filter)))
}

/// The indices of the lines that the filter keeps, in order.
pub fn filtered_line_indices_simple(lines: &VecDeque<CachedLogLine>, filter: &str) -> (r: Vec<usize>)
    ensures
        forall|k: int| 0 <= k < r@.len() ==> (#[trigger] r@[k]) < lines@.len() && kept_by_filter(lines@, filter@, r@[k] as int),
        forall|k: int, m: int| 0 <= k < m < r@.len() ==> r@[k] < r@[m],
        forall|i: int| 0 <= i < lines@.len() && kept_by_filter(lines@, filter@, i) ==> r@.contains(i as usize),
{
    let f = chars_of(filter);
    let t = trimmed(f.as_slice());
    let mut out: Vec<usize> = Vec::new();
    let n = lines.len();
    if t.len() == 0 {
        let mut i: usize = 0;
        while i < n
            invariant
                i <= n == lines@.len(),
                trim(filter@).len() == 0,
                out@.len() == i,
                forall|k: int| 0 <= k < i ==> out@[k] == k,
            decreases n - i,
        {
            out.push(i);
            i = i + 1;
        }
        assert forall|i: int| 0 <= i < lines@.len() && kept_by_filter(lines@, filter@, i) implies out@.contains(i as usize) by {
            assert(out@[i] == i);
        }
        return out;
    }
    let lower = to_lowercase(string_of(t.as_slice()).as_str());
    let mut i: usize = 0;
    while i < n
        invariant
            i <= n == lines@.len(),
            t@ == trim(filter@),
            t@.len() > 0,
            lower@ == lowercase(trim(filter@)),
            forall|k: int| 0 <= k < out@.len() ==> (#[trigger] out@[k]) < i && kept_by_filter(lines@, filter@, out@[k] as int),
            forall|k: int, m: int| 0 <= k < m < out@.len() ==> out@[k] < out@[m],
            forall|j: int| 0 <= j < i && kept_by_filter(lines@, filter@, j) ==> out@.contains(j as usize),
        decreases n - i,
    {
        if lines[i].matches_filter(lower.as_str()) {
            let ghost before = out@;
            out.push(i);
            assert(out@[before.len() as int] == i);
            assert forall|j: int| 0 <= j < i + 1 && kept_by_filter(lines@, filter@, j) implies out@.contains(j as usize) by {
                if j < i {
                    assert(before.contains(j as usize));
                    let w = choose|w: int| 0 <= w < before.len() && before[w] == j as usize;
                    assert(out@[w] == j as usize);
                }
            }
        }
        i = i + 1;
    }
    out
}

/// Whether the shown text of a line, lower-cased, contains every filter's
/// tag, lower-cased.
pub open spec fn tags_match(line: CachedLogLine, tag_filters: Seq<LogcatTagFilter>, show_timestamps: bool) -> bool {
    forall|j: int| 0 <= j < tag_filters.len() ==> contains(
        lowercase(line.shown(show_timestamps)),
        lowercase(#[trigger] tag_filters[j].tag@),
    )
}

/// The lines that the text filter and the tag filters both keep.
pub open spec fn kept_by_filters(
    lines: Seq<CachedLogLine>,
    filter: Seq<char>,
    tag_filters: Seq<LogcatTagFilter>,
    show_timestamps: bool,
    i: int,
) -> bool {
    kept_by_filter(lines, filter, i) && tags_match(lines[i], tag_filters, show_timestamps)
}

/// The indices of the lines that the text filter and the tag filters keep
/// (tags matched against the text as shown), in order.
pub fn filtered_line_indices(
    lines: &VecDeque<CachedLogLine>,
    text_filter: &str,
    tag_filters: &[LogcatTagFilter],
    show_timestamps: bool,
) -> (r: Vec<usize>)
    ensures
        forall|k: int| 0 <= k < r@.len() ==> (#[trigger] r@[k]) < lines@.len() && kept_by_filters(
            lines@,
            text_filter@,
            tag_filters@,
            show_timestamps,
            r@[k] as int,
        ),
        forall|k: int, m: int| 0 <= k < m < r@.len() ==> r@[k] < r@[m],
        forall|i: int|
            0 <= i < lines@.len() && kept_by_filters(lines@, text_filter@, tag_filters@, show_timestamps, i)
                ==> r@.contains(i as usize),
{
    let f = chars_of(text_filter);
    let t = trimmed(f.as_slice());
    let active = t.len() > 0;
    let lower = to_lowercase(string_of(t.as_slice()).as_str());
    let mut out: Vec<usize> = Vec::new();
    let n = lines.len();
    let mut i: usize = 0;
    while i < n
        invariant
            i <= n == lines@.len(),
            t@ == trim(text_filter@),
            active == (t@.len() > 0),
            lower@ == lowercase(trim(text_filter@)),
            forall|k: int| 0 <= k < out@.len() ==> (#[trigger] out@[k]) < i && kept_by_filters(
                lines@,
                text_filter@,
                tag_filters@,
                show_timestamps,
                out@[k] as int,
            ),
            forall|k: int, m: int| 0 <= k < m < out@.len() ==> out@[k] < out@[m],
            forall|j: int|
                0 <= j < i && kept_by_filters(lines@, text_filter@, tag_filters@, show_timestamps, j)
                    ==> out@.contains(j as usize),
        decreases n - i,
    {
        let keep = if active && !lines[i].matches_filter(lower.as_str()) {
            false
        } else {
            lines[i].matches_tag_filters(tag_filters, show_timestamps)
        };
        if keep {
            let ghost before = out@;
            out.push(i);
            assert(out@[before.len() as int] == i);
            assert forall|j: int|
                0 <= j < i + 1 && kept_by_filters(lines@, text_filter@, tag_filters@, show_timestamps, j)
                    implies out@.contains(j as usize) by {
                if j < i {
                    assert(before.contains(j as usize));
                    let w = choose|w: int| 0 <= w < before.len() && before[w] == j as usize;
                    assert(out@[w] == j as usize);
                }
            }
        }
        i = i + 1;
    }
    out
}

/// Drops the oldest lines until at most `MAX_LOG_LINES` are left.
pub fn trim_buffer(buffer: &mut VecDeque<CachedLogLine>)
    ensures
        final(buffer)@ == if old(buffer)@.len() > MAX_LOG_LINES {
            old(buffer)@.skip(old(buffer)@.len() - MAX_LOG_LINES)
        } else {
            old(buffer)@
        },
{
    let ghost all = buffer@;
    assert(all.skip(0) =~= all);
    while buffer.len() > MAX_LOG_LINES
        invariant
            all == old(buffer)@,
            all.len() >= buffer@.len(),
            buffer@ == all.skip(all.len() - buffer@.len()),
            buffer@.len() >= MAX_LOG_LINES || all.len() <= MAX_LOG_LINES,
            all.len() <= MAX_LOG_LINES ==> buffer@ == all,
        decreases buffer@.len(),
    {
        let ghost before = buffer@;
        let _ = buffer.pop_front();
        assert(buffer@ =~= all.skip(all.len() - buffer@.len()));
    }
}

// ---------------------------------------------------------------------------
// Tag filters
// ---------------------------------------------------------------------------

/// A tag that log lines must mention, with its highlight color.
#[derive(Clone, Debug)]
pub struct LogcatTagFilter {
    pub tag: String,
    pub color_index: usize,
}

/// The highlight color of a tag: the default hasher's hash of its
/// lower-cased text (its bytes, then `0xFF`, as `str` hashes), modulo the
/// palette size.
pub open spec fn tag_color_spec(tag: Seq<char>) -> nat {
    (<std::collections::hash_map::DefaultHasher as vstd::std_specs::hash::DefaultHasherAdditionalSpecFns>::spec_finish(
        seq![vstd::utf8::encode_utf8(lowercase(tag)), seq![0xffu8]],
    ) % (TAG_PALETTE_LEN as u64)) as nat
}

/// Stable palette index for a tag name, as `tag_color_spec` says.
pub fn tag_color_index(tag: &str) -> (r: usize)
    ensures
        r == tag_color_spec(tag@),
        r < TAG_PALETTE_LEN,
{
    let lower = to_lowercase(tag);
    let mut hasher = std::collections::hash_map::DefaultHasher::new();
    let bytes = lower.as_str().as_bytes();
    assert(bytes@ == vstd::utf8::encode_utf8(lowercase(tag@)));
    hasher.write(bytes);
    let end = [0xffu8];
    assert(end@ =~= seq![0xffu8]);
    hasher.write(&end);
    assert(hasher@ =~= seq![vstd::utf8::encode_utf8(lowercase(tag@)), seq![0xffu8]]);
    let h = hasher.finish();
    (h % (TAG_PALETTE_LEN as u64)) as usize
}

/// Adds a tag filter from the typed input: nothing for a blank input; no new
/// filter when one with the same tag (ignoring ASCII case) exists; else a
/// filter for the trimmed input. Returns whether the input is to be cleared
/// (always, but for a blank input).
pub fn add_tag_filter(filters: &mut Vec<LogcatTagFilter>, input: &str) -> (r: bool)
    ensures
        r == (trim(input@).len() > 0),
        !r ==> final(filters)@ == old(filters)@,
        r && (exists|i: int| 0 <= i < old(filters)@.len() && eq_ignore_ascii_case(
            #[trigger] old(filters)@[i].tag@,
            trim(input@),
        )) ==> final(filters)@ == old(filters)@,
        r && !(exists|i: int| 0 <= i < old(filters)@.len() && eq_ignore_ascii_case(
            #[trigger] old(filters)@[i].tag@,
            trim(input@),
        )) ==> final(filters)@.len() == old(filters)@.len() + 1 && final(filters)@.drop_last() == old(filters)@
            && final(filters)@.last().tag@ == trim(input@) && final(filters)@.last().color_index
            == tag_color_spec(trim(input@)),
{
    let c = chars_of(input);
    let t = trimmed(c.as_slice());
    if t.len() == 0 {
        return false;
    }
    let mut i: usize = 0;
    while i < filters.len()
        invariant
            i <= filters@.len(),
            t@ == trim(input@),
            t@.len() > 0,
            filters@ == old(filters)@,
            forall|j: int| 0 <= j < i ==> !eq_ignore_ascii_case(#[trigger] filters@[j].tag@, t@),
        decreases filters@.len() - i,
    {
        let ft = chars_of(filters[i].tag.as_str());
        if crate::protocols::eq_ignore_ascii_case_exec(ft.as_slice(), t.as_slice()) {
            return true;
        }
        i = i + 1;
    }
    let tag = string_of(t.as_slice());
    let color_index = tag_color_index(tag.as_str());
    let ghost before = filters@;
    filters.push(LogcatTagFilter { tag, color_index });
    assert(filters@.drop_last() =~= before);
    true
}

/// Removes the filter at `index`, if there is one.
pub fn remove_tag_filter(filters: &mut Vec<LogcatTagFilter>, index: usize)
    ensures
        index < old(filters)@.len() ==> final(filters)@ == old(filters)@.remove(index as int),
        index >= old(filters)@.len() ==> final(filters)@ == old(filters)@,
{
    if index < filters.len() {
        filters.remove(index);
    }
}

// ---------------------------------------------------------------------------
// Devices
// ---------------------------------------------------------------------------

/// Index of the first ready device, or `devices.len()`.
pub open spec fn first_ready(devices: Seq<DeviceInfo>, i: int) -> int
    decreases devices.len() - i,
{
    if i >= devices.len() || i < 0 {
        devices.len() as int
    } else if devices[i].state is Device {
        i
    } else {
        first_ready(devices, i + 1)
    }
}

/// The serial of the first ready device, if any.
pub fn first_ready_serial(devices: &[DeviceInfo]) -> (r: Option<String>)
    ensures
        match r {
            Some(s) => first_ready(devices@, 0) < devices@.len() && s@ == devices@[first_ready(devices@, 0)].serial@,
            None => first_ready(devices@, 0) == devices@.len(),
        },
{
    let mut i: usize = 0;
    while i < devices.len()
        invariant
            i <= devices@.len(),
            first_ready(devices@, 0) == first_ready(devices@, i as int),
        decreases devices@.len() - i,
    {
        if devices[i].state.is_ready() {
            return Some(string_of(chars_of(devices[i].serial.as_str()).as_slice()));
        }
        i = i + 1;
    }
    None
}

/// Whether a ready device with serial `serial` is listed.
pub fn still_connected(devices: &[DeviceInfo], serial: &str) -> (r: bool)
    ensures
        r == exists|i: int| 0 <= i < devices@.len() && (#[trigger] devices@[i]).serial@ == serial@
            && devices@[i].state is Device,
{
    let s = chars_of(serial);
    let mut i: usize = 0;
    while i < devices.len()
        invariant
            i <= devices@.len(),
            s@ == serial@,
            forall|j: int| 0 <= j < i ==> !((#[trigger] devices@[j]).serial@ == serial@ && devices@[j].state is Device),
        decreases devices@.len() - i,
    {
        let d = chars_of(devices[i].serial.as_str());
        if same_chars(d.as_slice(), s.as_slice()) && devices[i].state.is_ready() {
            return true;
        }
        i = i + 1;
    }
    false
}


// ---------------------------------------------------------------------------
// Per-app storage
// ---------------------------------------------------------------------------

/// The packages of the last list and the sizes measured so far.
pub struct AppStorageState {
    pub packages: Vec<String>,
    pub sizes: TextMap<u64>,
    pub scanning: bool,
    pub error: Option<String>,
}

impl Default for AppStorageState {
    fn default() -> (r: AppStorageState)
        ensures
            r.packages@.len() == 0,
            r.sizes@ == Map::<Seq<char>, u64>::empty(),
            !r.scanning,
            r.error is None,
    {
        AppStorageState { packages: Vec::new(), sizes: TextMap::new(), scanning: false, error: None }
    }
}

/// The size recorded for a package, if any.
pub open spec fn size_of(sizes: Map<Seq<char>, u64>, p: Seq<char>) -> Option<u64> {
    if sizes.dom().contains(p) {
        Some(sizes[p])
    } else {
        None
    }
}

/// `a` may come before `b` among the rows: larger sizes first, measured
/// before unmeasured, unmeasured by name.
pub open spec fn row_le(a: (Seq<char>, Option<u64>), b: (Seq<char>, Option<u64>)) -> bool {
    match (a.1, b.1) {
        (Some(l), Some(r)) => l >= r,
        (Some(_), None) => true,
        (None, Some(_)) => false,
        (None, None) => lex_le(a.0, b.0),
    }
}

/// Row `i` comes before row `j` (their order in the list breaks ties).
pub open spec fn row_before(a: (Seq<char>, Option<u64>), i: int, b: (Seq<char>, Option<u64>), j: int) -> bool {
    row_le(a, b) && (!row_le(b, a) || i < j)
}

proof fn lemma_row_total(a: (Seq<char>, Option<u64>), b: (Seq<char>, Option<u64>))
    ensures
        row_le(a, b) || row_le(b, a),
{
    lemma_lex_total(a.0, b.0);
}

proof fn lemma_row_trans(a: (Seq<char>, Option<u64>), b: (Seq<char>, Option<u64>), c: (Seq<char>, Option<u64>))
    requires
        row_le(a, b),
        row_le(b, c),
    ensures
        row_le(a, c),
{
    if a.1 is None && b.1 is None && c.1 is None {
        lemma_lex_trans(a.0, b.0, c.0);
    }
}

fn row_le_exec(a: &(String, Option<u64>), b: &(String, Option<u64>)) -> (r: bool)
    ensures
        r == row_le((a.0@, a.1), (b.0@, b.1)),
{
    match (a.1, b.1) {
        (Some(l), Some(r)) => l >= r,
        (Some(_), None) => true,
        (None, Some(_)) => false,
        (None, None) => {
            let x = chars_of(a.0.as_str());
            let y = chars_of(b.0.as_str());
            lex_le_exec(x.as_slice(), y.as_slice())
        },
    }
}

impl AppStorageState {
    /// Starts over with a new package list: no sizes, scanning.
    pub fn set_packages(&mut self, packages: Vec<String>)
        ensures
            final(self).packages == packages,
            final(self).sizes@ == Map::<Seq<char>, u64>::empty(),
            final(self).scanning,
            final(self).error == old(self).error,
    {
        self.packages = packages;
        self.sizes = TextMap::new();
        self.scanning = true;
    }

    /// Takes a new package list, keeping the sizes of the packages still on
    /// it; scanning.
    pub fn merge_packages(&mut self, packages: Vec<String>)
        ensures
            final(self).packages == packages,
            final(self).sizes@ == old(self).sizes@.restrict(key_set(packages@)),
            final(self).scanning,
            final(self).error == old(self).error,
    {
        self.sizes.retain_keys(&packages);
        self.packages = packages;
        self.scanning = true;
    }

    /// Records the size of a package.
    pub fn set_size(&mut self, package: &str, bytes: u64)
        ensures
            final(self).sizes@ == old(self).sizes@.insert(package@, bytes),
            final(self).packages == old(self).packages,
            final(self).scanning == old(self).scanning,
            final(self).error == old(self).error,
    {
        self.sizes.insert(string_of(chars_of(package).as_slice()), bytes);
    }

    /// The row of the `i`-th package: its name and recorded size.
    pub open spec fn row(&self, i: int) -> (Seq<char>, Option<u64>) {
        (self.packages@[i]@, size_of(self.sizes@, self.packages@[i]@))
    }

    /// Each package with its size (if measured), largest first, measured
    /// before unmeasured, unmeasured by name; packages that tie keep their
    /// order. Each row stands for one package: `order[k]` is the package of
    /// row `k`.
    pub fn sorted_rows(&self) -> (r: Vec<(String, Option<u64>)>)
        ensures
            r@.len() == self.packages@.len(),
            exists|order: Seq<int>| #[trigger] self.rows_in_order(r@, order),
    {
        let n = self.packages.len();
        let mut out: Vec<(String, Option<u64>)> = Vec::new();
        let ghost mut order: Seq<int> = Seq::empty();
        let mut i: usize = 0;
        while i < n
            invariant
                i <= n == self.packages@.len(),
                out@.len() == i,
                order.len() == i,
                forall|k: int| 0 <= k < order.len() ==> 0 <= #[trigger] order[k] < i,
                forall|k: int| 0 <= k < out@.len() ==> ((#[trigger] out@[k]).0@, out@[k].1) == self.row(order[k]),
                forall|k: int, m: int| 0 <= k < m < out@.len() ==> row_before(
                    self.row(#[trigger] order[k]),
                    order[k],
                    self.row(#[trigger] order[m]),
                    order[m],
                ),
                forall|k: int, m: int| 0 <= k < m < order.len() ==> order[k] != order[m],
            decreases n - i,
        {
            let name = string_of(chars_of(self.packages[i].as_str()).as_slice());
            let size = match self.sizes.get(self.packages[i].as_str()) {
                Some(v) => Some(*v),
                None => None,
            };
            let x = (name, size);
            assert((x.0@, x.1) == self.row(i as int));
            let mut pos: usize = 0;
            while pos < out.len() && row_le_exec(&out[pos], &x)
                invariant
                    pos <= out@.len(),
                    forall|k: int| 0 <= k < pos ==> row_le(((#[trigger] out@[k]).0@, out@[k].1), (x.0@, x.1)),
                decreases out@.len() - pos,
            {
                pos = pos + 1;
            }
            let ghost old_out = out@;
            let ghost old_order = order;
            let ghost xv = self.row(i as int);
            proof {
                if pos < out@.len() {
                    lemma_row_total(self.row(order[pos as int]), xv);
                }
                assert forall|k: int| 0 <= k < pos implies row_le(self.row(#[trigger] old_order[k]), xv) by {
                    assert(row_le((out@[k].0@, out@[k].1), (x.0@, x.1)));
                }
            }
            out.insert(pos, x);
            proof {
                order = old_order.insert(pos as int, i as int);
                assert forall|k: int| 0 <= k < order.len() implies 0 <= #[trigger] order[k] < i + 1 by {
                    if k < pos {
                        assert(order[k] == old_order[k]);
                    } else if k > pos {
                        assert(order[k] == old_order[k - 1]);
                    }
                }
                assert forall|k: int| 0 <= k < out@.len() implies ((#[trigger] out@[k]).0@, out@[k].1) == self.row(order[k]) by {
                    if k < pos {
                        assert(out@[k] == old_out[k]);
                        assert(order[k] == old_order[k]);
                    } else if k > pos {
                        assert(out@[k] == old_out[k - 1]);
                        assert(order[k] == old_order[k - 1]);
                    }
                }
                assert forall|k: int, m: int| 0 <= k < m < out@.len() implies row_before(
                    self.row(#[trigger] order[k]),
                    order[k],
                    self.row(#[trigger] order[m]),
                    order[m],
                ) by {
                    if m < pos {
                        assert(order[k] == old_order[k] && order[m] == old_order[m]);
                    } else if m == pos {
                        assert(order[k] == old_order[k]);
                        assert(row_le(self.row(old_order[k]), xv));
                    } else if k < pos {
                        assert(order[k] == old_order[k] && order[m] == old_order[m - 1]);
                        let a = self.row(old_order[k]);
                        let p = self.row(old_order[pos as int]);
                        let b = self.row(old_order[m - 1]);
                        assert(row_le(a, xv));
                        assert(!row_le(p, xv));
                        if m - 1 > pos {
                            assert(row_before(p, old_order[pos as int], b, old_order[m - 1]));
                            lemma_row_trans(xv, p, b);
                        }
                        lemma_row_trans(a, xv, b);
                        if row_le(b, a) {
                            if m - 1 > pos {
                                lemma_row_trans(p, b, a);
                                lemma_row_trans(p, a, xv);
                            } else {
                                lemma_row_trans(p, a, xv);
                            }
                        }
                    } else if k == pos {
                        assert(order[k] == i && order[m] == old_order[m - 1]);
                        let p = self.row(old_order[pos as int]);
                        let b = self.row(old_order[m - 1]);
                        assert(!row_le(p, xv));
                        if m - 1 > pos {
                            assert(row_before(p, old_order[pos as int], b, old_order[m - 1]));
                            lemma_row_trans(xv, p, b);
                            if row_le(b, xv) {
                                lemma_row_trans(p, b, xv);
                            }
                        }
                    } else {
                        assert(order[k] == old_order[k - 1] && order[m] == old_order[m - 1]);
                    }
                }
                assert forall|k: int, m: int| 0 <= k < m < order.len() implies order[k] != order[m] by {
                    if k < pos && m < pos {
                        assert(order[k] == old_order[k] && order[m] == old_order[m]);
                    } else if k < pos && m == pos {
                        assert(order[k] == old_order[k]);
                    } else if k < pos {
                        assert(order[k] == old_order[k] && order[m] == old_order[m - 1]);
                    } else if k == pos {
                        assert(order[m] == old_order[m - 1]);
                    } else {
                        assert(order[k] == old_order[k - 1] && order[m] == old_order[m - 1]);
                    }
                }
            }
            i = i + 1;
        }
        assert(self.rows_in_order(out@, order));
        out
    }

    /// `rows` lists the packages in `order` (each once), as their rows, in
    /// `row_before` order.
    pub open spec fn rows_in_order(&self, rows: Seq<(String, Option<u64>)>, order: Seq<int>) -> bool {
        &&& order.len() == rows.len()
        &&& forall|k: int| 0 <= k < order.len() ==> 0 <= #[trigger] order[k] < self.packages@.len()
        &&& forall|k: int| 0 <= k < rows.len() ==> ((#[trigger] rows[k]).0@, rows[k].1) == self.row(order[k])
        &&& forall|k: int, m: int| 0 <= k < m < rows.len() ==> row_before(
            self.row(#[trigger] order[k]),
            order[k],
            self.row(#[trigger] order[m]),
            order[m],
        )
        &&& forall|k: int, m: int| 0 <= k < m < order.len() ==> order[k] != order[m]
    }
}

/// Applies an update of the app storage poller: a package list starts over
/// (the first) or is merged (later ones) and clears the error; a size is
/// recorded; the end of a scan stops scanning; an error is kept. Returns
/// whether anything changed (always).
pub fn apply_app_storage_update(state: &mut AppStorageState, update: AppStorageUpdate) -> (r: bool)
    ensures
        r,
        match update {
            AppStorageUpdate::PackageList(p) => final(state).packages == p && final(state).scanning
                && final(state).error is None && final(state).sizes@ == if old(state).packages@.len() == 0 {
                Map::<Seq<char>, u64>::empty()
            } else {
                old(state).sizes@.restrict(key_set(p@))
            },
            AppStorageUpdate::PackageStorage(ps) => final(state).sizes@ == old(state).sizes@.insert(
                ps.package@,
                ps.total_bytes,
            ) && final(state).packages == old(state).packages && final(state).scanning
                == old(state).scanning && final(state).error == old(state).error,
            AppStorageUpdate::ScanComplete => !final(state).scanning && final(state).packages
                == old(state).packages && final(state).sizes@ == old(state).sizes@ && final(state).error
                == old(state).error,
            AppStorageUpdate::Error(m) => final(state).error == Some(m) && final(state).packages
                == old(state).packages && final(state).sizes@ == old(state).sizes@ && final(state).scanning
                == old(state).scanning,
        },
{
    match update {
        AppStorageUpdate::PackageList(packages) => {
            if state.packages.len() == 0 {
                state.set_packages(packages);
            } else {
                state.merge_packages(packages);
            }
            state.error = None;
        },
        AppStorageUpdate::PackageStorage(storage) => {
            state.set_size(storage.package.as_str(), storage.total_bytes);
        },
        AppStorageUpdate::ScanComplete => {
            state.scanning = false;
        },
        AppStorageUpdate::Error(message) => {
            state.error = Some(message);
        },
    }
    true
}

// ---------------------------------------------------------------------------
// Log buffers
// ---------------------------------------------------------------------------

/// The buffer after appending lines and dropping the oldest beyond
/// `MAX_LOG_LINES`.
pub open spec fn appended(buffer: Seq<CachedLogLine>, lines: Seq<CachedLogLine>) -> Seq<CachedLogLine> {
    let all = buffer + lines;
    if all.len() > MAX_LOG_LINES {
        all.skip(all.len() - MAX_LOG_LINES)
    } else {
        all
    }
}

/// `appended`, when there is something to append.
pub open spec fn appended_if(buffer: Seq<CachedLogLine>, lines: Seq<CachedLogLine>) -> Seq<CachedLogLine> {
    if lines.len() > 0 {
        appended(buffer, lines)
    } else {
        buffer
    }
}

/// A log view within `MAX_LOG_LINES` stays within it when lines are taken,
/// and the lines taken last are kept, newest at the end.
pub proof fn log_view_stays_capped(buffer: Seq<CachedLogLine>, lines: Seq<CachedLogLine>)
    requires
        buffer.len() <= MAX_LOG_LINES,
    ensures
        appended_if(buffer, lines).len() <= MAX_LOG_LINES,
        capped(buffer + lines).len() <= MAX_LOG_LINES,
        lines.len() <= MAX_LOG_LINES ==> appended_if(buffer, lines).skip(
            appended_if(buffer, lines).len() - lines.len(),
        ) == lines,
{
    if lines.len() <= MAX_LOG_LINES {
        let a = appended_if(buffer, lines);
        assert(a.skip(a.len() - lines.len()) =~= lines);
    }
}

fn push_all_lines(buffer: &mut VecDeque<CachedLogLine>, lines: Vec<CachedLogLine>)
    ensures
        final(buffer)@ == old(buffer)@ + lines@,
{
    let ghost base = buffer@;
    let ghost all = lines@;
    let mut rest = lines;
    let ghost mut done: Seq<CachedLogLine> = Seq::empty();
    assert(done + rest@ =~= all);
    while rest.len() > 0
        invariant
            done + rest@ == all,
            buffer@ == base + done,
        decreases rest@.len(),
    {
        let ghost before = rest@;
        let x = rest.remove(0);
        buffer.push_back(x);
        proof {
            assert(before =~= seq![x] + rest@);
            done = done.push(x);
            assert(done + rest@ =~= all);
            assert(buffer@ =~= base + done);
        }
    }
    assert(done =~= all);
}

/// Takes new lines into a log view: with the feed following, the held-back
/// lines and then the new ones join the visible buffer (returns whether any
/// did); else the new ones are held back (returns false). Both buffers keep
/// at most `MAX_LOG_LINES`.
pub fn take_lines(
    visible: &mut VecDeque<CachedLogLine>,
    pending: &mut VecDeque<CachedLogLine>,
    lines: Vec<CachedLogLine>,
    follow: bool,
) -> (r: bool)
    ensures
        follow ==> r == (old(pending)@.len() > 0 || lines@.len() > 0) && final(pending)@.len() == 0
            && final(visible)@ == appended_if(appended_if(old(visible)@, old(pending)@), lines@),
        !follow ==> !r && final(visible)@ == old(visible)@ && final(pending)@ == appended_if(
            old(pending)@,
            lines@,
        ),
{
    if follow {
        let mut updated = false;
        if pending.len() > 0 {
            let ghost before = visible@;
            let ghost held = pending@;
            while pending.len() > 0
                invariant
                    visible@ + pending@ == before + held,
                decreases pending@.len(),
            {
                let ghost p0 = pending@;
                let x = pending.pop_front().unwrap();
                let ghost v0 = visible@;
                visible.push_back(x);
                assert(p0 =~= seq![x] + pending@);
                assert(visible@ + pending@ =~= before + held);
            }
            assert(visible@ =~= before + held);
            trim_buffer(visible);
            updated = true;
        }
        if lines.len() > 0 {
            push_all_lines(visible, lines);
            trim_buffer(visible);
            updated = true;
        }
        updated
    } else {
        if lines.len() > 0 {
            push_all_lines(pending, lines);
            trim_buffer(pending);
        }
        false
    }
}


/// The error-level lines (`E` or `F`) among `lines`.
pub open spec fn error_lines_of(lines: Seq<CachedLogLine>) -> Seq<CachedLogLine> {
    lines.filter(|l: CachedLogLine| l.level == 'E' || l.level == 'F')
}

/// The buffer trimmed to `MAX_LOG_LINES`.
pub open spec fn capped(b: Seq<CachedLogLine>) -> Seq<CachedLogLine> {
    if b.len() > MAX_LOG_LINES {
        b.skip(b.len() - MAX_LOG_LINES)
    } else {
        b
    }
}

fn error_only(lines: Vec<CachedLogLine>) -> (r: Vec<CachedLogLine>)
    ensures
        r@ == error_lines_of(lines@),
{
    let ghost all = lines@;
    let ghost pred = |l: CachedLogLine| l.level == 'E' || l.level == 'F';
    let mut out: Vec<CachedLogLine> = Vec::new();
    let mut rest = lines;
    let ghost mut done: Seq<CachedLogLine> = Seq::empty();
    assert(done + rest@ =~= all);
    assert(out@ =~= done.filter(pred));
    while rest.len() > 0
        invariant
            done + rest@ == all,
            out@ == done.filter(pred),
            pred == (|l: CachedLogLine| l.level == 'E' || l.level == 'F'),
        decreases rest@.len(),
    {
        let ghost before = rest@;
        let x = rest.remove(0);
        let keep = x.level == 'E' || x.level == 'F';
        let ghost xv = x;
        if keep {
            out.push(x);
        }
        proof {
            assert(before =~= seq![xv] + rest@);
            done.lemma_filter_push(xv, pred);
            done = done.push(xv);
            assert(done + rest@ =~= all);
        }
    }
    assert(done =~= all);
    out
}

/// Takes new lines into the error view, keeping only error-level ones: with
/// the feed following, the held-back lines and the new error lines join the
/// visible buffer (capped once something joined); else the new error lines
/// are held back (the held-back buffer capped when lines came). Any error
/// line that arrives or joins marks `now` as the time of the last error.
/// Returns whether the visible buffer changed.
pub fn take_error_lines(
    visible: &mut VecDeque<CachedLogLine>,
    pending: &mut VecDeque<CachedLogLine>,
    lines: Vec<CachedLogLine>,
    follow: bool,
    last_error_at: &mut Option<u64>,
    now: u64,
) -> (r: bool)
    ensures
        follow ==> ({
            let joined = if old(pending)@.len() > 0 {
                capped(old(visible)@ + old(pending)@)
            } else {
                old(visible)@
            };
            let errors = error_lines_of(lines@);
            let changed = old(pending)@.len() > 0 || errors.len() > 0;
            &&& r == changed
            &&& final(pending)@.len() == 0
            &&& final(visible)@ == if changed {
                capped(joined + errors)
            } else {
                joined
            }
            &&& *final(last_error_at) == if changed {
                Some(now)
            } else {
                *old(last_error_at)
            }
        }),
        !follow ==> ({
            let errors = error_lines_of(lines@);
            &&& !r
            &&& final(visible)@ == old(visible)@
            &&& final(pending)@ == if lines@.len() > 0 {
                capped(old(pending)@ + errors)
            } else {
                old(pending)@
            }
            &&& *final(last_error_at) == if errors.len() > 0 {
                Some(now)
            } else {
                *old(last_error_at)
            }
        }),
{
    let had_lines = lines.len() > 0;
    let errors = error_only(lines);
    if follow {
        let mut updated = false;
        if pending.len() > 0 {
            let ghost before = visible@;
            let ghost held = pending@;
            while pending.len() > 0
                invariant
                    visible@ + pending@ == before + held,
                decreases pending@.len(),
            {
                let ghost p0 = pending@;
                let x = pending.pop_front().unwrap();
                visible.push_back(x);
                assert(p0 =~= seq![x] + pending@);
                assert(visible@ + pending@ =~= before + held);
            }
            assert(visible@ =~= before + held);
            trim_buffer(visible);
            *last_error_at = Some(now);
            updated = true;
        }
        if errors.len() > 0 {
            push_all_lines(visible, errors);
            *last_error_at = Some(now);
            updated = true;
        }
        if updated {
            proof {
                if old(pending)@.len() > 0 && error_lines_of(lines@).len() == 0 {
                    assert(visible@ =~= visible@ + Seq::<CachedLogLine>::empty());
                }
            }
            trim_buffer(visible);
        }
        updated
    } else {
        if had_lines {
            let n = errors.len();
            push_all_lines(pending, errors);
            trim_buffer(pending);
            if n > 0 {
                *last_error_at = Some(now);
            }
        }
        false
    }
}

// ---------------------------------------------------------------------------
// Insight requests
// ---------------------------------------------------------------------------

/// The most insight replies kept.
pub const MAX_INSIGHTS: usize = 100;

/// How long errors must have been quiet before a first request, in
/// nanoseconds.
pub const INSIGHT_SETTLE_NANOS: u64 = 5_000_000_000;

/// How long to wait between requests for an unchanged digest, in
/// nanoseconds.
pub const INSIGHT_COOLDOWN_NANOS: u64 = 30_000_000_000;

/// Where the insight request stands.
#[derive(Debug, Clone, Copy, PartialEq, Eq, Structural)]
pub enum InsightStatus {
    Idle,
    RequestSent,
    RequestFailed,
}

/// The insight panel's state: the request status, the replies, and what the
/// next request decision needs. Times are nanoseconds on a monotonic clock.
pub struct InsightState {
    pub status: InsightStatus,
    pub replies: VecDeque<String>,
    pub last_analyze: Option<u64>,
    pub last_error_at: Option<u64>,
    pub last_sent_key: Option<String>,
    pub ever_succeeded: bool,
    pub generation: u64,
}

impl Default for InsightState {
    fn default() -> (r: InsightState)
        ensures
            r.status == InsightStatus::Idle,
            r.replies@.len() == 0,
            r.last_analyze is None,
            r.last_error_at is None,
            r.last_sent_key is None,
            !r.ever_succeeded,
            r.generation == 0,
    {
        InsightState {
            status: InsightStatus::Idle,
            replies: VecDeque::new(),
            last_analyze: None,
            last_error_at: None,
            last_sent_key: None,
            ever_succeeded: false,
            generation: 0,
        }
    }
}

/// Time since `at`, saturating at zero.
pub open spec fn elapsed(now: u64, at: u64) -> nat {
    if now >= at {
        (now - at) as nat
    } else {
        0
    }
}

/// A fatal cluster of `snapshot` whose fingerprint does not occur in the
/// last digest sent (never when none was sent).
pub open spec fn new_fatal_since(snapshot: InsightSnapshot, last_sent: Option<String>) -> bool {
    match last_sent {
        Some(prev) => exists|i: int|
            0 <= i < snapshot.clusters@.len() && (#[trigger] snapshot.clusters@[i]).level == 'F' && !contains(
                prev@,
                snapshot.clusters@[i].fingerprint@,
            ),
        None => false,
    }
}

/// Whether to send a request for a snapshot whose digest is `key`: never
/// while a request is outstanding; else the first one once errors have been
/// quiet for the settle time; later ones when the
/// digest changed and brings a new high-severity error, when it changed and
/// the cooldown passed, or when the last request failed for the same digest
/// and the cooldown passed.
pub open spec fn should_send_spec(st: InsightState, key: Seq<char>, high: bool, now: u64) -> bool {
    st.status != InsightStatus::RequestSent && match st.last_sent_key {
        None => match st.last_error_at {
            Some(at) => elapsed(now, at) >= INSIGHT_SETTLE_NANOS,
            None => false,
        },
        Some(prev) => {
            let cooled = match st.last_analyze {
                None => true,
                Some(at) => elapsed(now, at) >= INSIGHT_COOLDOWN_NANOS,
            };
            let changed = key != prev@;
            (high && changed) || (changed && cooled) || (!changed && st.status
                == InsightStatus::RequestFailed && cooled)
        },
    }
}

/// While a request is outstanding no other is sent, whatever the digest,
/// its severity and however late.
pub proof fn no_request_while_outstanding(st: InsightState, key: Seq<char>, high: bool, now: u64)
    requires
        st.status == InsightStatus::RequestSent,
    ensures
        !should_send_spec(st, key, high, now),
{
}

/// Before anything was sent, a request goes out once errors have been quiet
/// for the settle time.
pub proof fn first_request_after_quiet(st: InsightState, key: Seq<char>, high: bool, now: u64)
    requires
        st.status != InsightStatus::RequestSent,
        st.last_sent_key is None,
        st.last_error_at is Some,
        now >= st.last_error_at.unwrap() + INSIGHT_SETTLE_NANOS,
    ensures
        should_send_spec(st, key, high, now),
{
}

/// A failed request for a digest is tried again once the cooldown passed.
pub proof fn failed_request_retried(st: InsightState, key: Seq<char>, high: bool, now: u64)
    requires
        st.status == InsightStatus::RequestFailed,
        st.last_sent_key is Some,
        st.last_sent_key.unwrap()@ == key,
        st.last_analyze is Some,
        now >= st.last_analyze.unwrap() + INSIGHT_COOLDOWN_NANOS,
    ensures
        should_send_spec(st, key, high, now),
{
}

impl InsightState {
    /// Whether to send a request now, as `should_send_spec` says.
    pub fn should_send(&self, key: &str, high: bool, now: u64) -> (r: bool)
        ensures
            r == should_send_spec(*self, key@, high, now),
    {
        if self.status == InsightStatus::RequestSent {
            return false;
        }
        match &self.last_sent_key {
            None => match self.last_error_at {
                Some(at) => now.saturating_sub(at) >= INSIGHT_SETTLE_NANOS,
                None => false,
            },
            Some(prev) => {
                let cooled = match self.last_analyze {
                    None => true,
                    Some(at) => now.saturating_sub(at) >= INSIGHT_COOLDOWN_NANOS,
                };
                let p = chars_of(prev.as_str());
                let k = chars_of(key);
                let changed = !same_chars(k.as_slice(), p.as_slice());
                (high && changed) || (changed && cooled) || (!changed && self.status
                    == InsightStatus::RequestFailed && cooled)
            },
        }
    }

    /// Whether to request an insight on `snapshot` now: never for a snapshot
    /// without clusters; else as `should_send_spec` says for its digest,
    /// where the severity is high when a fatal cluster is new since the last
    /// digest sent.
    pub fn request_due(&self, snapshot: &InsightSnapshot, now: u64) -> (r: bool)
        ensures
            r == (snapshot.clusters@.len() > 0 && should_send_spec(
                *self,
                digest_of(snapshot.fingerprints()),
                new_fatal_since(*snapshot, self.last_sent_key),
                now,
            )),
    {
        if snapshot.clusters.len() == 0 {
            return false;
        }
        let key = snapshot.digest_key();
        let high = match &self.last_sent_key {
            Some(prev) => snapshot.has_new_high_severity(prev.as_str()),
            None => false,
        };
        self.should_send(key.as_str(), high, now)
    }

    /// Records a request sent at `now` for the digest `key`: a new generation
    /// (wrapping), status sent. Returns the generation.
    pub fn start_request(&mut self, now: u64, key: String) -> (r: u64)
        ensures
            r == final(self).generation,
            final(self).generation == if old(self).generation == u64::MAX {
                0
            } else {
                (old(self).generation + 1) as u64
            },
            final(self).status == InsightStatus::RequestSent,
            final(self).last_analyze == Some(now),
            final(self).last_sent_key == Some(key),
            final(self).replies@ == old(self).replies@,
            final(self).last_error_at == old(self).last_error_at,
            final(self).ever_succeeded == old(self).ever_succeeded,
    {
        self.generation = if self.generation == u64::MAX {
            0
        } else {
            self.generation + 1
        };
        self.status = InsightStatus::RequestSent;
        self.last_analyze = Some(now);
        self.last_sent_key = Some(key);
        self.generation
    }

    /// Applies an update of the insight worker, when it belongs to the
    /// current generation and to the device that the request was for, which
    /// is still selected: started marks the request sent; a reply is kept
    /// (at most `MAX_INSIGHTS`, the oldest dropped) and the state idles; an
    /// error marks the request failed and, before any success, forgets the
    /// digest and marks `now` as the last error. Returns whether it applied.
    pub fn apply_update(
        &mut self,
        update: InsightUpdate,
        request_serial: Option<&str>,
        selected_serial: Option<&str>,
        now: u64,
    ) -> (r: bool)
        ensures
            ({
                let (g, s) = match update {
                    InsightUpdate::Started { generation, serial } => (generation, serial),
                    InsightUpdate::Reply { generation, serial, .. } => (generation, serial),
                    InsightUpdate::Error { generation, serial, .. } => (generation, serial),
                };
                r == (g == old(self).generation && request_serial is Some && request_serial.unwrap()@
                    == s@ && selected_serial is Some && selected_serial.unwrap()@ == s@)
            }),
            !r ==> *final(self) == *old(self),
            r ==> final(self).generation == old(self).generation,
            r ==> final(self).last_analyze == old(self).last_analyze,
            r ==> match update {
                InsightUpdate::Started { .. } => final(self).status == InsightStatus::RequestSent
                    && final(self).replies@ == old(self).replies@ && final(self).last_sent_key
                    == old(self).last_sent_key && final(self).last_error_at == old(self).last_error_at
                    && final(self).ever_succeeded == old(self).ever_succeeded,
                InsightUpdate::Reply { text, .. } => final(self).status == InsightStatus::Idle
                    && final(self).ever_succeeded && final(self).replies@ == (if old(self).replies@.len()
                    + 1 > MAX_INSIGHTS {
                    old(self).replies@.push(text).skip(old(self).replies@.len() + 1 - MAX_INSIGHTS)
                } else {
                    old(self).replies@.push(text)
                }) && final(self).last_sent_key == old(self).last_sent_key && final(self).last_error_at
                    == old(self).last_error_at,
                InsightUpdate::Error { .. } => final(self).status == InsightStatus::RequestFailed
                    && final(self).replies@ == old(self).replies@ && final(self).ever_succeeded
                    == old(self).ever_succeeded && (if old(self).ever_succeeded {
                    final(self).last_sent_key == old(self).last_sent_key && final(self).last_error_at
                        == old(self).last_error_at
                } else {
                    final(self).last_sent_key is None && final(self).last_error_at == Some(now)
                }),
            },
    {
        let (g, s) = match &update {
            InsightUpdate::Started { generation, serial } => (*generation, serial),
            InsightUpdate::Reply { generation, serial, .. } => (*generation, serial),
            InsightUpdate::Error { generation, serial, .. } => (*generation, serial),
        };
        if g != self.generation {
            return false;
        }
        let sc = chars_of(s.as_str());
        let matches_request = match request_serial {
            Some(rs) => same_chars(chars_of(rs).as_slice(), sc.as_slice()),
            None => false,
        };
        if !matches_request {
            return false;
        }
        let matches_selected = match selected_serial {
            Some(ss) => same_chars(chars_of(ss).as_slice(), sc.as_slice()),
            None => false,
        };
        if !matches_selected {
            return false;
        }
        match update {
            InsightUpdate::Started { .. } => {
                self.status = InsightStatus::RequestSent;
            },
            InsightUpdate::Reply { text, .. } => {
                let mut rs: VecDeque<String> = VecDeque::new();
                std::mem::swap(&mut rs, &mut self.replies);
                let ghost all = rs@.push(text);
                rs.push_back(text);
                assert(rs@ == all);
                assert(all.skip(0) =~= all);
                while rs.len() > MAX_INSIGHTS
                    invariant
                        all.len() >= rs@.len(),
                        rs@ == all.skip(all.len() - rs@.len()),
                        rs@.len() >= MAX_INSIGHTS || all.len() <= MAX_INSIGHTS,
                        all.len() <= MAX_INSIGHTS ==> rs@ == all,
                    decreases rs@.len(),
                {
                    let _ = rs.pop_front();
                    assert(rs@ =~= all.skip(all.len() - rs@.len()));
                }
                self.replies = rs;
                self.status = InsightStatus::Idle;
                self.ever_succeeded = true;
            },
            InsightUpdate::Error { .. } => {
                self.status = InsightStatus::RequestFailed;
                if !self.ever_succeeded {
                    self.last_sent_key = None;
                    self.last_error_at = Some(now);
                }
            },
        }
        true
    }
}

} // verus!
