//! Lines of `adb logcat -v threadtime`: parsing, splitting long messages,
//! and the text shown for an entry.

use vstd::prelude::*;

use crate::error::AdbError;
use crate::text::{concat, lossy_utf8, trim, trimmed, utf8_lossy};
use crate::text::{
    chars_of, dec, is_whitespace, decimal_end, find_char, find_from, is_decimal, is_decimal_char, is_ws,
    lemma_dec_digits, lemma_decimal_end, lemma_find_from, lemma_find_from_char, lemma_ws_end,
    lemma_ws_end_bounds, parse_unsigned, parse_unsigned_exec, push_dec,
    skip_decimal, skip_ws, string_of, ws_end,
};

verus! {

/// A single line from `adb logcat -v threadtime`.
#[derive(Debug, Clone, PartialEq, Eq)]
pub struct LogEntry {
    pub timestamp: String,
    pub pid: u32,
    pub tid: u32,
    pub level: char,
    pub tag: String,
    pub message: String,
}

// ---------------------------------------------------------------------------
// Formatting
// ---------------------------------------------------------------------------

/// `n` spaces.
pub open spec fn spaces(n: nat) -> Seq<char> {
    Seq::new(n, |i: int| ' ')
}

/// `s` right-aligned in a field of `width` characters, as `{:>width}` pads it.
pub open spec fn pad_left(s: Seq<char>, width: nat) -> Seq<char> {
    if s.len() < width {
        spaces((width - s.len()) as nat) + s
    } else {
        s
    }
}

/// The text of an entry, with or without its timestamp, pid and tid columns.
///
/// An entry with neither timestamp nor tag continues the message of the entry
/// before it: it is shown indented under that message.
pub open spec fn formatted(
    timestamp: Seq<char>,
    pid: nat,
    tid: nat,
    level: char,
    tag: Seq<char>,
    message: Seq<char>,
    show_timestamp: bool,
) -> Seq<char> {
    let continuation = timestamp.len() == 0 && tag.len() == 0;
    let suffix = if continuation {
        seq![' ', ' '] + message
    } else {
        seq![level, ' '] + tag + seq![':', ' '] + message
    };
    if show_timestamp {
        let body = if continuation {
            spaces(13) + seq![' '] + suffix
        } else {
            pad_left(dec(pid), 5) + seq![' '] + pad_left(dec(tid), 5) + seq![' '] + suffix
        };
        if timestamp.len() == 0 {
            if continuation {
                spaces(18) + seq![' '] + body
            } else {
                body
            }
        } else {
            timestamp + seq![' '] + body
        }
    } else {
        suffix
    }
}

/// Appends `n` spaces to `out`.
pub fn push_spaces(out: &mut Vec<char>, n: usize)
    ensures
        final(out)@ == old(out)@ + spaces(n as nat),
{
    let mut i: usize = 0;
    while i < n
        invariant
            i <= n,
            out@ == old(out)@ + spaces(i as nat),
        decreases n - i,
    {
        out.push(' ');
        i = i + 1;
        assert(out@ =~= old(out)@ + spaces(i as nat));
    }
}

/// Appends the decimal digits of `n`, right-aligned in `width` characters.
pub fn push_padded_dec(out: &mut Vec<char>, n: u64, width: usize)
    ensures
        final(out)@ == old(out)@ + pad_left(dec(n as nat), width as nat),
{
    let mut digits: Vec<char> = Vec::new();
    push_dec(&mut digits, n);
    assert(digits@ =~= dec(n as nat));
    if digits.len() < width {
        push_spaces(out, width - digits.len());
    }
    let ghost mid = out@;
    let mut i: usize = 0;
    while i < digits.len()
        invariant
            i <= digits@.len(),
            out@ == mid + digits@.take(i as int),
        decreases digits@.len() - i,
    {
        out.push(digits[i]);
        i = i + 1;
        assert(out@ =~= mid + digits@.take(i as int));
    }
    assert(digits@.take(digits@.len() as int) =~= digits@);
    assert(out@ =~= old(out)@ + pad_left(dec(n as nat), width as nat));
}

/// Appends the characters of `s` to `out`.
pub fn push_all(out: &mut Vec<char>, s: &[char])
    ensures
        final(out)@ == old(out)@ + s@,
{
    let mut i: usize = 0;
    while i < s.len()
        invariant
            i <= s@.len(),
            out@ == old(out)@ + s@.take(i as int),
        decreases s@.len() - i,
    {
        out.push(s[i]);
        i = i + 1;
        assert(out@ =~= old(out)@ + s@.take(i as int));
    }
    assert(s@.take(s@.len() as int) =~= s@);
}

impl LogEntry {
    /// The text of this entry as `formatted` describes it.
    pub open spec fn text(&self, show_timestamp: bool) -> Seq<char> {
        formatted(
            self.timestamp@,
            self.pid as nat,
            self.tid as nat,
            self.level,
            self.tag@,
            self.message@,
            show_timestamp,
        )
    }

    /// The full line: timestamp, pid, tid, level, tag and message.
    pub fn format_line(&self) -> (r: String)
        ensures
            r@ == self.text(true),
    {
        self.format_line_with_timestamp(true)
    }

    /// The line with or without its timestamp, pid and tid columns.
    pub fn format_line_with_timestamp(&self, show_timestamp: bool) -> (r: String)
        ensures
            r@ == self.text(show_timestamp),
    {
        let timestamp = chars_of(self.timestamp.as_str());
        let tag = chars_of(self.tag.as_str());
        let message = chars_of(self.message.as_str());
        let continuation = timestamp.len() == 0 && tag.len() == 0;
        let mut suffix: Vec<char> = Vec::new();
        if continuation {
            suffix.push(' ');
            suffix.push(' ');
        } else {
            suffix.push(self.level);
            suffix.push(' ');
            push_all(&mut suffix, tag.as_slice());
            suffix.push(':');
            suffix.push(' ');
        }
        push_all(&mut suffix, message.as_slice());
        if !show_timestamp {
            return string_of(suffix.as_slice());
        }
        let mut out: Vec<char> = Vec::new();
        if timestamp.len() == 0 {
            if continuation {
                push_spaces(&mut out, 18);
                out.push(' ');
            }
        } else {
            push_all(&mut out, timestamp.as_slice());
            out.push(' ');
        }
        if continuation {
            push_spaces(&mut out, 13);
            out.push(' ');
        } else {
            push_padded_dec(&mut out, self.pid as u64, 5);
            out.push(' ');
            push_padded_dec(&mut out, self.tid as u64, 5);
            out.push(' ');
        }
        push_all(&mut out, suffix.as_slice());
        let ghost s = self.text(show_timestamp);
        assert(out@ =~= s);
        string_of(out.as_slice())
    }

    /// Returns true for Error (`E`) and Fatal (`F`) log levels.
    pub fn is_error_level(&self) -> (r: bool)
        ensures
            r == (self.level == 'E' || self.level == 'F'),
    {
        self.level == 'E' || self.level == 'F'
    }

    /// Diagnostic message from adb/logcat (stderr, spawn failures, etc.): an
    /// Error-level entry tagged `adb` with no timestamp, pid or tid.
    pub fn adb_diagnostic(message: &str) -> (r: LogEntry)
        ensures
            r.timestamp@ == Seq::<char>::empty(),
            r.pid == 0,
            r.tid == 0,
            r.level == 'E',
            r.tag@ == seq!['a', 'd', 'b'],
            r.message@ == message@,
    {
        let tag = ['a', 'd', 'b'];
        let empty: [char; 0] = [];
        let m = chars_of(message);
        LogEntry {
            timestamp: string_of(&empty),
            pid: 0,
            tid: 0,
            level: 'E',
            tag: string_of(&tag),
            message: string_of(m.as_slice()),
        }
    }
}

// ---------------------------------------------------------------------------
// Parsing
// ---------------------------------------------------------------------------

/// A logcat level letter: `V`, `D`, `I`, `W`, `E` or `F`.
pub open spec fn is_level_char(c: char) -> bool {
    c == 'V' || c == 'D' || c == 'I' || c == 'W' || c == 'E' || c == 'F'
}

/// `s` begins with a timestamp of the shape `dd-dd dd:dd:dd.ddd`, where each
/// `d` is a Unicode decimal digit.
pub open spec fn timestamp_shape(s: Seq<char>) -> bool {
    &&& s.len() >= 18
    &&& is_decimal(s[0]) && is_decimal(s[1]) && s[2] == '-'
    &&& is_decimal(s[3]) && is_decimal(s[4]) && s[5] == ' '
    &&& is_decimal(s[6]) && is_decimal(s[7]) && s[8] == ':'
    &&& is_decimal(s[9]) && is_decimal(s[10]) && s[11] == ':'
    &&& is_decimal(s[12]) && is_decimal(s[13]) && s[14] == '.'
    &&& is_decimal(s[15]) && is_decimal(s[16]) && is_decimal(s[17])
}

/// The pieces of a threadtime line: timestamp, pid digits, tid digits, level,
/// tag and message.
///
/// The line is the timestamp, whitespace, a run of decimal digits (pid),
/// whitespace, a run of decimal digits (tid), whitespace, a level letter,
/// whitespace, the tag (everything up to the first `:` after that
/// whitespace), the `:`, one optional space, and the message, which holds
/// no line feed.
pub open spec fn logcat_pieces(s: Seq<char>) -> Option<
    (Seq<char>, Seq<char>, Seq<char>, char, Seq<char>, Seq<char>),
> {
    let p1 = ws_end(s, 18);
    let p2 = decimal_end(s, p1);
    let p3 = ws_end(s, p2);
    let p4 = decimal_end(s, p3);
    let p5 = ws_end(s, p4);
    let p7 = ws_end(s, p5 + 1);
    let c = find_from(s, ':', p7);
    let m = if c + 1 < s.len() && s[c + 1] == ' ' {
        c + 2
    } else {
        c + 1
    };
    if timestamp_shape(s) && p1 > 18 && p2 > p1 && p3 > p2 && p4 > p3 && p5 > p4 && p5 < s.len()
        && is_level_char(s[p5]) && p7 > p5 + 1 && c < s.len() && find_from(s, '\n', c + 1)
        >= s.len() {
        Some((s.take(18), s.subrange(p1, p2), s.subrange(p3, p4), s[p5], s.subrange(p7, c), s.skip(m)))
    } else {
        None
    }
}

/// The fields of a threadtime line: its pieces, with pid and tid read as
/// `u32` decimal numbers. `None` when the line does not have that shape or
/// a number does not fit.
pub open spec fn logcat_fields(s: Seq<char>) -> Option<
    (Seq<char>, nat, nat, char, Seq<char>, Seq<char>),
> {
    match logcat_pieces(s) {
        Some((ts, d1, d2, level, tag, message)) => match (
            parse_unsigned(d1, u32::MAX as nat),
            parse_unsigned(d2, u32::MAX as nat),
        ) {
            (Some(pid), Some(tid)) => Some((ts, pid, tid, level, tag, message)),
            _ => None,
        },
        None => None,
    }
}

/// The fields of `e` in the order of `logcat_fields`.
pub open spec fn entry_fields(e: LogEntry) -> (Seq<char>, nat, nat, char, Seq<char>, Seq<char>) {
    (e.timestamp@, e.pid as nat, e.tid as nat, e.level, e.tag@, e.message@)
}

fn is_level_letter(c: char) -> (r: bool)
    ensures
        r == is_level_char(c),
{
    c == 'V' || c == 'D' || c == 'I' || c == 'W' || c == 'E' || c == 'F'
}

fn timestamp_ok(s: &[char]) -> (r: bool)
    ensures
        r == timestamp_shape(s@),
{
    s.len() >= 18 && is_decimal_char(s[0]) && is_decimal_char(s[1]) && s[2] == '-'
        && is_decimal_char(s[3]) && is_decimal_char(s[4]) && s[5] == ' ' && is_decimal_char(s[6])
        && is_decimal_char(s[7]) && s[8] == ':' && is_decimal_char(s[9]) && is_decimal_char(s[10])
        && s[11] == ':' && is_decimal_char(s[12]) && is_decimal_char(s[13]) && s[14] == '.'
        && is_decimal_char(s[15]) && is_decimal_char(s[16]) && is_decimal_char(s[17])
}

fn piece(s: &[char], a: usize, b: usize) -> (r: String)
    requires
        a <= b <= s@.len(),
    ensures
        r@ == s@.subrange(a as int, b as int),
{
    string_of(vstd::slice::slice_subrange(s, a, b))
}

/// The pieces of a line as `logcat_pieces` gives them, as index bounds.
fn find_pieces(s: &[char]) -> (r: Option<(usize, usize, usize, usize, usize, usize, usize)>)
    ensures
        match r {
            Some((p1, p2, p3, p4, p5, p7, c)) => {
                &&& 18 <= p1 <= p2 <= p3 <= p4 <= p5 < p7 <= c < s@.len()
                &&& logcat_pieces(s@) == Some(
                    (
                        s@.take(18),
                        s@.subrange(p1 as int, p2 as int),
                        s@.subrange(p3 as int, p4 as int),
                        s@[p5 as int],
                        s@.subrange(p7 as int, c as int),
                        s@.skip(
                            if c + 1 < s@.len() && s@[c + 1] == ' ' {
                                c + 2
                            } else {
                                c + 1
                            },
                        ),
                    ),
                )
            },
            None => logcat_pieces(s@) is None,
        },
{
    if !timestamp_ok(s) {
        return None;
    }
    let p1 = skip_ws(s, 18);
    if p1 == 18 {
        return None;
    }
    let p2 = skip_decimal(s, p1);
    if p2 == p1 {
        return None;
    }
    let p3 = skip_ws(s, p2);
    if p3 == p2 {
        return None;
    }
    let p4 = skip_decimal(s, p3);
    if p4 == p3 {
        return None;
    }
    let p5 = skip_ws(s, p4);
    if p5 == p4 || p5 >= s.len() || !is_level_letter(s[p5]) {
        return None;
    }
    let p7 = skip_ws(s, p5 + 1);
    if p7 == p5 + 1 {
        return None;
    }
    let c = find_char(s, ':', p7);
    if c >= s.len() {
        return None;
    }
    let nl = find_char(s, '\n', c + 1);
    if nl < s.len() {
        return None;
    }
    Some((p1, p2, p3, p4, p5, p7, c))
}

/// Parses one `threadtime` line into an entry holding the whole message.
/// `None` for lines of another shape, such as `--------- beginning of main`.
pub fn parse_logcat_line(line: &str) -> (r: Option<LogEntry>)
    ensures
        match r {
            Some(e) => logcat_fields(line@) == Some(entry_fields(e)),
            None => logcat_fields(line@) is None,
        },
{
    let s = chars_of(line);
    let found = find_pieces(s.as_slice());
    match found {
        None => None,
        Some((p1, p2, p3, p4, p5, p7, c)) => {
            let pid = parse_unsigned_exec(vstd::slice::slice_subrange(s.as_slice(), p1, p2), 0xffff_ffff);
            let tid = parse_unsigned_exec(vstd::slice::slice_subrange(s.as_slice(), p3, p4), 0xffff_ffff);
            match (pid, tid) {
                (Some(pid), Some(tid)) => {
                    let m = if c + 1 < s.len() && s[c + 1] == ' ' {
                        c + 2
                    } else {
                        c + 1
                    };
                    let e = LogEntry {
                        timestamp: piece(s.as_slice(), 0, 18),
                        pid: pid as u32,
                        tid: tid as u32,
                        level: s[p5],
                        tag: piece(s.as_slice(), p7, c),
                        message: piece(s.as_slice(), m, s.len()),
                    };
                    assert(s@.subrange(0, 18) =~= s@.take(18));
                    assert(s@.subrange(m as int, s@.len() as int) =~= s@.skip(m as int));
                    Some(e)
                },
                _ => None,
            }
        },
    }
}

proof fn lemma_pad_left(d: Seq<char>, w: nat)
    ensures
        pad_left(d, w).len() == if d.len() < w {
            w
        } else {
            d.len()
        },
        pad_left(d, w).skip(pad_left(d, w).len() - d.len()) == d,
        forall|j: int| 0 <= j < pad_left(d, w).len() - d.len() ==> #[trigger] pad_left(d, w)[j] == ' ',
{
    let p = pad_left(d, w);
    assert(p.skip(p.len() - d.len()) =~= d);
}

/// Parsing a canonical threadtime line and formatting the entry back gives
/// the line again: for the line that `format_line` shows for a timestamp of
/// the threadtime shape, a pid and a tid, any of the six level letters `V`,
/// `D`, `I`, `W`, `E`, `F`, a tag without `:`
/// that does not start with whitespace, and a message without line feeds,
/// `parse_logcat_line` gives an entry holding exactly those fields (its
/// contract: `logcat_fields(line) == Some(entry_fields(e))`), and that
/// entry's `format_line` (its `text(true)`) is the line.
pub proof fn parsed_line_formats_back(
    ts: Seq<char>,
    pid: u32,
    tid: u32,
    level: char,
    tag: Seq<char>,
    message: Seq<char>,
)
    requires
        ts.len() == 18,
        timestamp_shape(ts),
        level == 'V' || level == 'D' || level == 'I' || level == 'W' || level == 'E' || level == 'F',
        tag.len() == 0 || !is_ws(tag[0]),
        forall|j: int| 0 <= j < tag.len() ==> #[trigger] tag[j] != ':',
        forall|j: int| 0 <= j < message.len() ==> #[trigger] message[j] != '\n',
    ensures
        ({
            let line = formatted(ts, pid as nat, tid as nat, level, tag, message, true);
            &&& logcat_fields(line) == Some((ts, pid as nat, tid as nat, level, tag, message))
            &&& forall|e: LogEntry|
                logcat_fields(line) == Some(#[trigger] entry_fields(e)) ==> e.text(true) == line
        }),
{
    let line = formatted(ts, pid as nat, tid as nat, level, tag, message, true);
    let dp = dec(pid as nat);
    let dt = dec(tid as nat);
    let pp = pad_left(dp, 5);
    let tp = pad_left(dt, 5);
    lemma_dec_digits(pid as nat);
    lemma_dec_digits(tid as nat);
    lemma_pad_left(dp, 5);
    lemma_pad_left(dt, 5);
    let suffix = seq![level, ' '] + tag + seq![':', ' '] + message;
    let body = pp + seq![' '] + tp + seq![' '] + suffix;
    assert(line == ts + seq![' '] + body);
    let p1: int = 19 + pp.len() - dp.len();
    let p2: int = 19 + pp.len() as int;
    let p3: int = p2 + 1 + tp.len() - dt.len();
    let p4: int = p2 + 1 + tp.len();
    let p5: int = p4 + 1;
    let p7: int = p5 + 2;
    let c: int = p7 + tag.len();
    let m: int = c + 2;
    assert(line.len() == m + message.len());
    assert(line.take(18) =~= ts);
    assert(line[18] == ' ');
    assert forall|j: int| 18 <= j < p1 implies is_ws(#[trigger] line[j]) by {
        if j > 18 {
            assert(line[j] == pp[j - 19]);
        }
    }
    assert(line.subrange(p1, p2) =~= dp) by {
        assert forall|j: int| 0 <= j < dp.len() implies line.subrange(p1, p2)[j] == dp[j] by {
            assert(line[p1 + j] == pp[pp.len() - dp.len() + j]);
            assert(pp.skip(pp.len() - dp.len())[j] == pp[pp.len() - dp.len() + j]);
        }
    }
    assert(line[p2] == ' ');
    assert forall|j: int| p1 <= j < p2 implies is_decimal(#[trigger] line[j]) by {
        assert(line[j] == line.subrange(p1, p2)[j - p1]);
    }
    assert forall|j: int| p2 <= j < p3 implies is_ws(#[trigger] line[j]) by {
        if j > p2 {
            assert(line[j] == tp[j - p2 - 1]);
        }
    }
    assert(line.subrange(p3, p4) =~= dt) by {
        assert forall|j: int| 0 <= j < dt.len() implies line.subrange(p3, p4)[j] == dt[j] by {
            assert(line[p3 + j] == tp[tp.len() - dt.len() + j]);
            assert(tp.skip(tp.len() - dt.len())[j] == tp[tp.len() - dt.len() + j]);
        }
    }
    assert forall|j: int| p3 <= j < p4 implies is_decimal(#[trigger] line[j]) by {
        assert(line[j] == line.subrange(p3, p4)[j - p3]);
    }
    assert(line[p4] == ' ');
    assert(line[p5] == level);
    assert(line[p5 + 1] == ' ');
    assert(line.subrange(p7, c) =~= tag);
    assert(line[c] == ':');
    assert(line[c + 1] == ' ');
    assert(line.skip(m) =~= message);
    assert(!is_ws(line[p1]) && !is_decimal(line[p2]) && !is_ws(line[p3]) && !is_decimal(line[p4]));
    assert(!is_ws(level));
    lemma_ws_end(line, 18, p1);
    lemma_decimal_end(line, p1, p2);
    lemma_ws_end(line, p2, p3);
    lemma_decimal_end(line, p3, p4);
    lemma_ws_end(line, p4, p5);
    if tag.len() > 0 {
        assert(line[p7] == tag[0]);
    } else {
        assert(line[p7] == ':');
    }
    lemma_ws_end(line, p5 + 1, p7);
    assert forall|j: int| p7 <= j < c implies #[trigger] line[j] != ':' by {
        assert(line[j] == tag[j - p7]);
    }
    lemma_find_from_char(line, ':', p7, c);
    assert forall|j: int| c + 1 <= j < line.len() implies #[trigger] line[j] != '\n' by {
        if j >= m {
            assert(line[j] == message[j - m]);
        }
    }
    lemma_find_from_char(line, '\n', c + 1, line.len() as int);
    assert(timestamp_shape(line));
    assert(line.subrange(p1, p2) == dp);
    assert(parse_unsigned(dp, u32::MAX as nat) == Some(pid as nat));
    assert(parse_unsigned(dt, u32::MAX as nat) == Some(tid as nat));
}

// ---------------------------------------------------------------------------
// Splitting long messages
// ---------------------------------------------------------------------------

/// Budget in UTF-8 bytes of one displayed message piece.
pub const MESSAGE_CHUNK_BYTES: usize = 120;

/// `m` with each run of whitespace replaced by one space.
pub open spec fn collapse_ws(m: Seq<char>) -> Seq<char>
    decreases m.len(),
{
    if m.len() == 0 {
        m
    } else if is_ws(m[0]) {
        proof {
            lemma_ws_end_bounds(m, 1);
        }
        seq![' '] + collapse_ws(m.skip(ws_end(m, 1)))
    } else {
        seq![m[0]] + collapse_ws(m.drop_first())
    }
}

/// Number of bytes of `c` in UTF-8.
pub open spec fn utf8_len(c: char) -> nat {
    let u = c as u32;
    if u < 0x80 {
        1
    } else if u < 0x800 {
        2
    } else if u < 0x10000 {
        3
    } else {
        4
    }
}

/// Number of leading characters of `m` whose UTF-8 encoding fits in `budget` bytes.
pub open spec fn fit_count(m: Seq<char>, budget: int) -> nat
    decreases m.len(),
{
    if m.len() == 0 || utf8_len(m[0]) > budget {
        0
    } else {
        1 + fit_count(m.drop_first(), budget - utf8_len(m[0]))
    }
}

pub proof fn lemma_fit_count_le(m: Seq<char>, budget: int)
    ensures
        fit_count(m, budget) <= m.len(),
    decreases m.len(),
{
    if m.len() > 0 && utf8_len(m[0]) <= budget {
        lemma_fit_count_le(m.drop_first(), budget - utf8_len(m[0]));
    }
}

/// Length in characters of the first piece of a non-empty `m`: the longest
/// prefix that fits in `MESSAGE_CHUNK_BYTES` bytes, and at least one character.
pub open spec fn chunk_len(m: Seq<char>) -> nat {
    let k = fit_count(m, MESSAGE_CHUNK_BYTES as int);
    if k == 0 {
        1
    } else {
        k
    }
}

/// `m` cut into consecutive pieces of `chunk_len` characters.
pub open spec fn message_chunks(m: Seq<char>) -> Seq<Seq<char>>
    decreases m.len(),
{
    if m.len() == 0 {
        seq![]
    } else {
        proof {
            lemma_fit_count_le(m, MESSAGE_CHUNK_BYTES as int);
        }
        seq![m.take(chunk_len(m) as int)] + message_chunks(m.skip(chunk_len(m) as int))
    }
}

/// Every prefix within the fitting count fits whole.
proof fn lemma_fit_prefix(m: Seq<char>, budget: int, j: int)
    requires
        0 <= j <= fit_count(m, budget),
    ensures
        fit_count(m.take(j), budget) == j,
    decreases j,
{
    lemma_fit_count_le(m, budget);
    if j > 0 {
        let u = utf8_len(m[0]) as int;
        assert(m.take(j).drop_first() =~= m.drop_first().take(j - 1));
        lemma_fit_prefix(m.drop_first(), budget - u, j - 1);
    } else {
        assert(m.take(0).len() == 0);
    }
}

/// A piece of a long message: not empty, and within `MESSAGE_CHUNK_BYTES`
/// bytes unless it is a single character that alone exceeds them.
pub open spec fn piece_fits(p: Seq<char>) -> bool {
    p.len() > 0 && (fit_count(p, MESSAGE_CHUNK_BYTES as int) == p.len() || p.len() == 1)
}

/// Cutting a message loses and reorders nothing: its pieces, joined, give
/// the message back; and each piece fits the byte budget.
pub proof fn message_chunks_rejoin(m: Seq<char>)
    ensures
        message_chunks(m).flatten() == m,
        forall|i: int| 0 <= i < message_chunks(m).len() ==> piece_fits(#[trigger] message_chunks(m)[i]),
    decreases m.len(),
{
    if m.len() == 0 {
        assert(message_chunks(m).flatten() =~= m);
    } else {
        lemma_fit_count_le(m, MESSAGE_CHUNK_BYTES as int);
        let k = chunk_len(m) as int;
        message_chunks_rejoin(m.skip(k));
        let rest = message_chunks(m.skip(k));
        let cs = message_chunks(m);
        assert(cs == seq![m.take(k)] + rest);
        assert(cs.drop_first() =~= rest);
        assert(m.take(k) + m.skip(k) =~= m);
        if fit_count(m, MESSAGE_CHUNK_BYTES as int) > 0 {
            lemma_fit_prefix(m, MESSAGE_CHUNK_BYTES as int, k);
        }
        assert forall|i: int| 0 <= i < cs.len() implies piece_fits(#[trigger] cs[i]) by {
            if i > 0 {
                assert(cs[i] == rest[i - 1]);
            }
        }
    }
}

/// Timestamp, tag and message of each entry that a parsed line becomes: the
/// first piece keeps the timestamp and tag, the pieces after it have neither.
/// A line whose collapsed message is empty becomes one entry.
pub open spec fn entry_pieces(ts: Seq<char>, tag: Seq<char>, message: Seq<char>) -> Seq<
    (Seq<char>, Seq<char>, Seq<char>),
> {
    let c = collapse_ws(message);
    if c.len() == 0 {
        seq![(ts, tag, c)]
    } else {
        message_chunks(c).map(
            |i: int, ch: Seq<char>|
                if i == 0 {
                    (ts, tag, ch)
                } else {
                    (Seq::<char>::empty(), Seq::<char>::empty(), ch)
                },
        )
    }
}

fn utf8_width(c: char) -> (r: usize)
    ensures
        r == utf8_len(c),
{
    let u = c as u32;
    if u < 0x80 {
        1
    } else if u < 0x800 {
        2
    } else if u < 0x10000 {
        3
    } else {
        4
    }
}

/// `m` with each run of whitespace replaced by one space.
pub fn collapse_whitespace(m: &[char]) -> (r: Vec<char>)
    ensures
        r@ == collapse_ws(m@),
{
    let mut out: Vec<char> = Vec::new();
    let mut i: usize = 0;
    assert(m@.skip(0) =~= m@);
    while i < m.len()
        invariant
            i <= m@.len(),
            collapse_ws(m@) == out@ + collapse_ws(m@.skip(i as int)),
        decreases m@.len() - i,
    {
        let ghost rest = m@.skip(i as int);
        if is_whitespace(m[i]) {
            let j = skip_ws(m, i + 1);
            proof {
                crate::text::lemma_ws_end_bounds(m@, i + 1);
                assert(j < m@.len() ==> rest[j - i] == m@[j as int]);
                assert forall|k: int| 1 <= k < j - i implies is_ws(rest[k]) by {
                    assert(rest[k] == m@[i + k]);
                }
                crate::text::lemma_ws_end(rest, 1, (j - i) as int);
                assert(rest.skip((j - i) as int) =~= m@.skip(j as int));
            }
            out.push(' ');
            i = j;
        } else {
            assert(rest.drop_first() =~= m@.skip(i + 1));
            out.push(m[i]);
            i = i + 1;
        }
    }
    assert(m@.skip(i as int) =~= Seq::<char>::empty());
    assert(out@ =~= out@ + collapse_ws(m@.skip(i as int)));
    out
}

/// Length of the first piece of `m[start..]` as `chunk_len` gives it.
fn next_chunk_len(m: &[char], start: usize) -> (r: usize)
    requires
        start < m@.len(),
    ensures
        r == chunk_len(m@.skip(start as int)),
        1 <= r <= m@.len() - start,
{
    let ghost t = m@.skip(start as int);
    let mut j = start;
    let mut bytes: usize = 0;
    while j < m.len() && bytes + utf8_width(m[j]) <= MESSAGE_CHUNK_BYTES
        invariant
            start <= j <= m@.len(),
            bytes <= MESSAGE_CHUNK_BYTES,
            t == m@.skip(start as int),
            fit_count(t, MESSAGE_CHUNK_BYTES as int) == (j - start) + fit_count(
                m@.skip(j as int),
                MESSAGE_CHUNK_BYTES - bytes,
            ),
        decreases m@.len() - j,
    {
        assert(m@.skip(j as int).drop_first() =~= m@.skip(j + 1));
        bytes = bytes + utf8_width(m[j]);
        j = j + 1;
    }
    proof {
        if j < m@.len() {
            assert(m@.skip(j as int)[0] == m@[j as int]);
        } else {
            assert(m@.skip(j as int).len() == 0);
        }
        lemma_fit_count_le(t, MESSAGE_CHUNK_BYTES as int);
    }
    if j == start {
        1
    } else {
        j - start
    }
}

/// `r` are the entries that a line with fields `f` becomes: none when `f` is
/// `None`, else one per element of `entry_pieces`, each with the line's pid,
/// tid and level and the element's timestamp, tag and message.
pub open spec fn entries_for(
    r: Seq<LogEntry>,
    f: Option<(Seq<char>, nat, nat, char, Seq<char>, Seq<char>)>,
) -> bool {
    match f {
        None => r.len() == 0,
        Some((ts, pid, tid, level, tag, message)) => {
            let pieces = entry_pieces(ts, tag, message);
            &&& r.len() == pieces.len()
            &&& forall|i: int|
                0 <= i < r.len() ==> {
                    &&& #[trigger] r[i].pid == pid
                    &&& r[i].tid == tid
                    &&& r[i].level == level
                    &&& r[i].timestamp@ == pieces[i].0
                    &&& r[i].tag@ == pieces[i].1
                    &&& r[i].message@ == pieces[i].2
                }
        },
    }
}

/// Entry `i` of the pieces of `e` when its message is cut as `chunks`.
pub open spec fn chunk_entry_ok(r: LogEntry, e: LogEntry, chunks: Seq<Seq<char>>, i: int) -> bool {
    &&& r.pid == e.pid
    &&& r.tid == e.tid
    &&& r.level == e.level
    &&& r.message@ == chunks[i]
    &&& r.timestamp@ == (if i == 0 {
        e.timestamp@
    } else {
        Seq::<char>::empty()
    })
    &&& r.tag@ == (if i == 0 {
        e.tag@
    } else {
        Seq::<char>::empty()
    })
}

/// One entry per piece of `c`, carrying the fields of `e`.
#[verifier::rlimit(30)]
fn chunk_entries(e: &LogEntry, c: &Vec<char>) -> (r: Vec<LogEntry>)
    requires
        c@.len() > 0,
    ensures
        r@.len() == message_chunks(c@).len(),
        forall|i: int|
            0 <= i < r@.len() ==> #[trigger] chunk_entry_ok(r@[i], *e, message_chunks(c@), i),
{
    let empty: [char; 0] = [];
    assert(empty@ =~= Seq::<char>::empty());
    let mut out: Vec<LogEntry> = Vec::new();
    let n = c.len();
    let ghost all = message_chunks(c@);
    let ghost done: Seq<Seq<char>> = seq![];
    let mut start: usize = 0;
    assert(c@.skip(0) =~= c@);
    while start < n
        invariant
            start <= n == c@.len(),
            all == message_chunks(c@),
            all == done + message_chunks(c@.skip(start as int)),
            out@.len() == done.len(),
            start == 0 <==> done.len() == 0,
            empty@ == Seq::<char>::empty(),
            forall|i: int| 0 <= i < out@.len() ==> #[trigger] chunk_entry_ok(out@[i], *e, done, i),
        decreases n - start,
    {
        let k = next_chunk_len(c.as_slice(), start);
        let ghost rest = c@.skip(start as int);
        let chunk = piece(c.as_slice(), start, start + k);
        proof {
            assert(rest.take(k as int) =~= c@.subrange(start as int, start + k));
            assert(rest.skip(k as int) =~= c@.skip(start + k));
            assert(done + message_chunks(rest) =~= done.push(rest.take(k as int)) + message_chunks(
                c@.skip(start + k),
            ));
        }
        let entry = if start == 0 {
            LogEntry {
                timestamp: e.timestamp.clone(),
                pid: e.pid,
                tid: e.tid,
                level: e.level,
                tag: e.tag.clone(),
                message: chunk,
            }
        } else {
            LogEntry {
                timestamp: string_of(&empty),
                pid: e.pid,
                tid: e.tid,
                level: e.level,
                tag: string_of(&empty),
                message: chunk,
            }
        };
        let ghost old_out = out@;
        let ghost old_done = done;
        out.push(entry);
        proof {
            done = done.push(rest.take(k as int));
            assert forall|i: int| 0 <= i < out@.len() implies #[trigger] chunk_entry_ok(
                out@[i],
                *e,
                done,
                i,
            ) by {
                if i < old_out.len() {
                    assert(out@[i] == old_out[i]);
                    assert(done[i] == old_done[i]);
                    assert(chunk_entry_ok(old_out[i], *e, old_done, i));
                } else {
                    assert(out@[i] == entry);
                }
            }
        }
        start = start + k;
    }
    assert(c@.skip(n as int) =~= Seq::<char>::empty());
    assert(done =~= all);
    out
}

/// The entries that `line` becomes on the stream: its fields as
/// `logcat_fields` gives them, with the message's whitespace runs collapsed
/// and the message cut into pieces of at most `MESSAGE_CHUNK_BYTES` bytes
/// (see `entry_pieces`). No entries for a line that does not parse.
pub fn parse_logcat_entries(line: &str) -> (r: Vec<LogEntry>)
    ensures
        entries_for(r@, logcat_fields(line@)),
{
    let mut out: Vec<LogEntry> = Vec::new();
    let parsed = parse_logcat_line(line);
    let e = match parsed {
        None => return out,
        Some(e) => e,
    };
    let message = chars_of(e.message.as_str());
    let c = collapse_whitespace(message.as_slice());
    if c.len() == 0 {
        let empty: [char; 0] = [];
        let only = LogEntry {
            timestamp: e.timestamp.clone(),
            pid: e.pid,
            tid: e.tid,
            level: e.level,
            tag: e.tag.clone(),
            message: string_of(&empty),
        };
        out.push(only);
        proof {
            assert(empty@ =~= Seq::<char>::empty());
            assert(c@ =~= Seq::<char>::empty());
            let pieces = entry_pieces(e.timestamp@, e.tag@, e.message@);
            assert(pieces =~= seq![(e.timestamp@, e.tag@, c@)]);
            assert(out@[0] == only);
        }
        return out;
    }
    let r = chunk_entries(&e, &c);
    proof {
        let pieces = entry_pieces(e.timestamp@, e.tag@, e.message@);
        let chunks = message_chunks(c@);
        assert(pieces.len() == chunks.len());
        assert forall|i: int| 0 <= i < r@.len() implies {
            &&& #[trigger] r@[i].pid == e.pid as nat
            &&& r@[i].tid == e.tid as nat
            &&& r@[i].level == e.level
            &&& r@[i].timestamp@ == pieces[i].0
            &&& r@[i].tag@ == pieces[i].1
            &&& r@[i].message@ == pieces[i].2
        } by {
            assert(chunk_entry_ok(r@[i], e, chunks, i));
        }
        assert(entries_for(r@, Some(entry_fields(e))));
        assert(logcat_fields(line@) == Some(entry_fields(e)));
    }
    r
}


// ---------------------------------------------------------------------------
// The logcat stream
// ---------------------------------------------------------------------------

/// `b` without its trailing line feeds and carriage returns.
pub open spec fn strip_line_end(b: Seq<u8>) -> Seq<u8>
    decreases b.len(),
{
    if b.len() > 0 && (b.last() == 10u8 || b.last() == 13u8) {
        strip_line_end(b.drop_last())
    } else {
        b
    }
}

/// The text of one line read from the stream: `None` when nothing was read
/// (the end of the stream); else the bytes without their trailing `\n` and
/// `\r`, decoded with invalid UTF-8 replaced.
pub fn line_from_bytes(bytes: &[u8]) -> (r: Option<String>)
    ensures
        match r {
            None => bytes@.len() == 0,
            Some(l) => bytes@.len() > 0 && l@ == lossy_utf8(strip_line_end(bytes@)),
        },
{
    if bytes.len() == 0 {
        return None;
    }
    let mut e = bytes.len();
    assert(bytes@.take(e as int) =~= bytes@);
    while e > 0 && (bytes[e - 1] == 10u8 || bytes[e - 1] == 13u8)
        invariant
            e <= bytes@.len(),
            strip_line_end(bytes@) == strip_line_end(bytes@.take(e as int)),
        decreases e,
    {
        assert(bytes@.take(e as int).drop_last() =~= bytes@.take(e - 1));
        e = e - 1;
    }
    let kept = vstd::slice::slice_subrange(bytes, 0, e);
    assert(kept@ =~= strip_line_end(bytes@));
    Some(utf8_lossy(kept))
}

/// The entry for a line of the logcat process's stderr: a diagnostic holding
/// the line, or none for a blank line.
pub fn stderr_entry(line: &str) -> (r: Option<LogEntry>)
    ensures
        match r {
            Some(e) => trim(line@).len() > 0 && e.message@ == line@ && e.level == 'E' && e.tag@
                == seq!['a', 'd', 'b'] && e.timestamp@.len() == 0 && e.pid == 0 && e.tid == 0,
            None => trim(line@).len() == 0,
        },
{
    let cs = chars_of(line);
    if trimmed(cs.as_slice()).len() == 0 {
        None
    } else {
        Some(LogEntry::adb_diagnostic(line))
    }
}

/// The entry that reports a logcat process that could not be started.
pub fn spawn_failure_entry(err: &AdbError) -> (r: LogEntry)
    ensures
        r.message@ == "logcat error: "@ + err.describe_spec(),
        r.level == 'E',
        r.tag@ == seq!['a', 'd', 'b'],
        r.timestamp@.len() == 0,
        r.pid == 0,
        r.tid == 0,
{
    let d = err.describe();
    let m = concat("logcat error: ", d.as_str());
    LogEntry::adb_diagnostic(m.as_str())
}

/// The arguments of the logcat process: `-s <serial> logcat -v threadtime`
/// and the filters.
pub open spec fn logcat_args_spec(serial: Seq<char>, filters: Seq<Seq<char>>) -> Seq<Seq<char>> {
    seq!["-s"@, serial, "logcat"@, "-v"@, "threadtime"@] + filters
}

/// The arguments of the logcat process, as `logcat_args_spec` lists them.
pub fn logcat_args(serial: &str, filters: &Vec<String>) -> (r: Vec<String>)
    ensures
        r@.map_values(|a: String| a@) == logcat_args_spec(serial@, filters@.map_values(|a: String| a@)),
{
    let mut out: Vec<String> = Vec::new();
    out.push(string_of(chars_of("-s").as_slice()));
    out.push(string_of(chars_of(serial).as_slice()));
    out.push(string_of(chars_of("logcat").as_slice()));
    out.push(string_of(chars_of("-v").as_slice()));
    out.push(string_of(chars_of("threadtime").as_slice()));
    let ghost head = seq!["-s"@, serial@, "logcat"@, "-v"@, "threadtime"@];
    assert(out@.map_values(|a: String| a@) =~= head);
    let mut i: usize = 0;
    while i < filters.len()
        invariant
            i <= filters@.len(),
            out@.map_values(|a: String| a@) == head + filters@.take(i as int).map_values(|a: String| a@),
        decreases filters@.len() - i,
    {
        let ghost prev = out@;
        out.push(string_of(chars_of(filters[i].as_str()).as_slice()));
        assert(out@.map_values(|a: String| a@) =~= prev.map_values(|a: String| a@).push(filters@[i as int]@));
        assert(filters@.take(i + 1).map_values(|a: String| a@) =~= filters@.take(i as int).map_values(
            |a: String| a@,
        ).push(filters@[i as int]@));
        i = i + 1;
    }
    assert(filters@.take(i as int) =~= filters@);
    out
}

/// The filters of the error-only stream: `*:E`.
pub fn error_filters() -> (r: Vec<String>)
    ensures
        r@.map_values(|a: String| a@) == seq!["*:E"@],
{
    let mut v: Vec<String> = Vec::new();
    v.push(string_of(chars_of("*:E").as_slice()));
    assert(v@.map_values(|a: String| a@) =~= seq!["*:E"@]);
    v
}

} // verus!
