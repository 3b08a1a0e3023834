//! Device memory statistics read from `/proc/meminfo`.

use vstd::prelude::*;

use crate::adb::{arg_views, run_adb_for_serial, run_failed, serial_args, succeeded, CommandOutput, IoFailure};
use crate::error::AdbError;
use crate::poll::{backoff, backoff_interval, Interval};
use crate::text::{
    chars_of, concat, eq_str, find_char, find_from, lines, lossy_utf8, parse_unsigned,
    parse_unsigned_exec, split_lines, split_tokens, string_of, tokens, trim, trimmed, utf8_lossy,
};

verus! {

#[verifier::external_type_specification]
#[verifier::external_body]
pub struct ExSystemTime(std::time::SystemTime);

/// `Clone` of `SystemTime` in std, a `Copy` type: the contract claims the
/// clone equals the value cloned.
pub assume_specification[ <std::time::SystemTime as Clone>::clone ](t: &std::time::SystemTime) -> (r: std::time::SystemTime)
    ensures
        r == *t,
;

/// Milliseconds between polls while they succeed.
pub const DEFAULT_POLL_MILLIS: u64 = 2000;

/// The longest wait between polls after failures, in milliseconds.
pub const MAX_BACKOFF_MILLIS: u64 = 5000;

/// How much longer each failed poll makes the wait, in milliseconds.
pub const BACKOFF_STEP_MILLIS: u64 = 1000;

/// Update from the stats poller — either a successful snapshot or a transient error.
#[derive(Debug, Clone, PartialEq, Eq)]
pub enum StatsUpdate {
    Stats(SystemStats),
    Error(String),
}

/// Memory statistics from `/proc/meminfo` (values in kB).
#[derive(Debug, Clone, PartialEq, Eq)]
pub struct MemoryStats {
    pub total_kb: u64,
    pub free_kb: u64,
    pub available_kb: u64,
    pub buffers_kb: u64,
    pub cached_kb: u64,
}

impl MemoryStats {
    /// Memory in use: the total less what is available, or zero when more is
    /// available than the total.
    pub fn used_kb(&self) -> (r: u64)
        ensures
            r == if self.available_kb <= self.total_kb {
                (self.total_kb - self.available_kb) as u64
            } else {
                0u64
            },
    {
        self.total_kb.saturating_sub(self.available_kb)
    }
}

/// Snapshot of device memory usage.
#[derive(Debug, Clone, PartialEq, Eq)]
pub struct SystemStats {
    pub memory: MemoryStats,
    pub timestamp: std::time::SystemTime,
}

/// The poll interval after a failed poll: one second longer, at most five.
pub fn next_backoff_interval(current: Interval) -> (r: Interval)
    ensures
        r.millis == backoff(current.millis as nat, BACKOFF_STEP_MILLIS as nat, MAX_BACKOFF_MILLIS as nat),
{
    backoff_interval(current, Interval::from_millis(BACKOFF_STEP_MILLIS), Interval::from_millis(MAX_BACKOFF_MILLIS))
}

/// What the poller does after a poll: the next wait (back to `interval` after
/// a success, backed off after a failure) and the update it sends (the stats,
/// or the error's user message).
pub fn after_poll(interval: Interval, current: Interval, fetched: Result<SystemStats, AdbError>) -> (r: (
    Interval,
    StatsUpdate,
))
    ensures
        match fetched {
            Ok(s) => r.0 == interval && r.1 == StatsUpdate::Stats(s),
            Err(e) => r.0.millis == backoff(current.millis as nat, BACKOFF_STEP_MILLIS as nat, MAX_BACKOFF_MILLIS as nat)
                && (r.1 matches StatsUpdate::Error(m) && m@ == e.user_message_spec()),
        },
{
    match fetched {
        Ok(s) => (interval, StatsUpdate::Stats(s)),
        Err(e) => (next_backoff_interval(current), StatsUpdate::Error(e.user_message())),
    }
}

// ---------------------------------------------------------------------------
// /proc/meminfo
// ---------------------------------------------------------------------------

/// The kB value of a meminfo line's value part: its first token, as an
/// unsigned 64-bit number; else the message of the error.
pub open spec fn kb_value(raw: Seq<char>) -> Result<nat, Seq<char>> {
    let toks = tokens(trim(raw));
    if toks.len() == 0 {
        Err("invalid meminfo value: "@ + raw)
    } else {
        match parse_unsigned(toks[0], u64::MAX as nat) {
            Some(v) => Ok(v),
            None => Err("invalid meminfo kB value: "@ + raw),
        }
    }
}

/// The key of a line (before its first `:`, trimmed), if it has a `:`.
pub open spec fn line_key(l: Seq<char>) -> Option<Seq<char>> {
    let i = find_from(l, ':', 0);
    if i < l.len() {
        Some(trim(l.take(i)))
    } else {
        None
    }
}

/// The value part of a line: what follows its first `:`.
pub open spec fn line_value(l: Seq<char>) -> Seq<char> {
    l.skip(find_from(l, ':', 0) + 1)
}

/// The message of the first line among `ls` that has a `:` but no valid kB
/// value.
pub open spec fn meminfo_error(ls: Seq<Seq<char>>) -> Option<Seq<char>>
    decreases ls.len(),
{
    if ls.len() == 0 {
        None
    } else {
        match meminfo_error(ls.drop_last()) {
            Some(e) => Some(e),
            None => if line_key(ls.last()) is Some {
                match kb_value(line_value(ls.last())) {
                    Err(e) => Some(e),
                    Ok(_) => None,
                }
            } else {
                None
            },
        }
    }
}

/// The value of the last line among `ls` whose key is `name`.
pub open spec fn last_value(ls: Seq<Seq<char>>, name: Seq<char>) -> Option<nat>
    decreases ls.len(),
{
    if ls.len() == 0 {
        None
    } else if line_key(ls.last()) == Some(name) {
        match kb_value(line_value(ls.last())) {
            Ok(v) => Some(v),
            Err(_) => None,
        }
    } else {
        last_value(ls.drop_last(), name)
    }
}

/// The value of `o`, or zero.
pub open spec fn or_zero(o: Option<nat>) -> nat {
    match o {
        Some(v) => v,
        None => 0,
    }
}

/// What `/proc/meminfo` text holds: total, free, available, buffers and
/// cached kB (each from the last line with its key; zero when absent but for
/// the total), or the message of the error: the first line with a `:` whose
/// value is not a kB number, else a missing total.
pub open spec fn meminfo_spec(text: Seq<char>) -> Result<(nat, nat, nat, nat, nat), Seq<char>> {
    let ls = lines(text);
    match meminfo_error(ls) {
        Some(e) => Err(e),
        None => match last_value(ls, "MemTotal"@) {
            None => Err("missing MemTotal"@),
            Some(total) => Ok(
                (
                    total,
                    or_zero(last_value(ls, "MemFree"@)),
                    or_zero(last_value(ls, "MemAvailable"@)),
                    or_zero(last_value(ls, "Buffers"@)),
                    or_zero(last_value(ls, "Cached"@)),
                ),
            ),
        },
    }
}

/// The five values of a `MemoryStats`.
pub open spec fn memory_view(m: MemoryStats) -> (nat, nat, nat, nat, nat) {
    (
        m.total_kb as nat,
        m.free_kb as nat,
        m.available_kb as nat,
        m.buffers_kb as nat,
        m.cached_kb as nat,
    )
}

/// `r` is the parse that `spec` describes.
pub open spec fn memory_result(
    spec: Result<(nat, nat, nat, nat, nat), Seq<char>>,
    r: Result<MemoryStats, AdbError>,
) -> bool {
    match spec {
        Ok(f) => r matches Ok(m) && memory_view(m) == f,
        Err(e) => r matches Err(AdbError::ParseFailed(s)) && s@ == e,
    }
}

/// Parses the kB value of a meminfo line's value part, as `kb_value` says.
pub fn parse_kb_value(raw: &str) -> (r: Result<u64, AdbError>)
    ensures
        match kb_value(raw@) {
            Ok(v) => r == Ok::<u64, AdbError>(v as u64),
            Err(e) => r matches Err(AdbError::ParseFailed(s)) && s@ == e,
        },
{
    let cs = chars_of(raw);
    let t = trimmed(cs.as_slice());
    let toks = split_tokens(t.as_slice());
    if toks.len() == 0 {
        return Err(AdbError::ParseFailed(concat("invalid meminfo value: ", raw)));
    }
    match parse_unsigned_exec(toks[0].as_slice(), u64::MAX) {
        Some(v) => Ok(v),
        None => Err(AdbError::ParseFailed(concat("invalid meminfo kB value: ", raw))),
    }
}

/// Which of the five fields a key names: 0 to 4, or 5 for none.
fn field_index(key: &[char]) -> (r: usize)
    ensures
        r == if key@ == "MemTotal"@ {
            0usize
        } else if key@ == "MemFree"@ {
            1usize
        } else if key@ == "MemAvailable"@ {
            2usize
        } else if key@ == "Buffers"@ {
            3usize
        } else if key@ == "Cached"@ {
            4usize
        } else {
            5usize
        },
{
    if eq_str(key, "MemTotal") {
        0
    } else if eq_str(key, "MemFree") {
        1
    } else if eq_str(key, "MemAvailable") {
        2
    } else if eq_str(key, "Buffers") {
        3
    } else if eq_str(key, "Cached") {
        4
    } else {
        5
    }
}

/// The five field names, in field order.
pub open spec fn field_name(k: int) -> Seq<char> {
    if k == 0 {
        "MemTotal"@
    } else if k == 1 {
        "MemFree"@
    } else if k == 2 {
        "MemAvailable"@
    } else if k == 3 {
        "Buffers"@
    } else {
        "Cached"@
    }
}

/// The five field names differ from one another.
proof fn lemma_field_names_distinct(p: int, q: int)
    requires
        0 <= p < 5,
        0 <= q < 5,
        p != q,
    ensures
        field_name(p) != field_name(q),
{
    reveal_strlit("MemTotal");
    reveal_strlit("MemFree");
    reveal_strlit("MemAvailable");
    reveal_strlit("Buffers");
    reveal_strlit("Cached");
    assert("MemTotal"@.len() == 8);
    assert("MemFree"@.len() == 7);
    assert("MemAvailable"@.len() == 12);
    assert("Buffers"@.len() == 7);
    assert("Cached"@.len() == 6);
    assert("MemFree"@[0] != "Buffers"@[0]);
}

/// The value of an optional field.
pub open spec fn opt_view(o: Option<u64>) -> Option<nat> {
    match o {
        Some(v) => Some(v as nat),
        None => None,
    }
}

/// Parses `/proc/meminfo` text as `meminfo_spec` says.
pub fn parse_meminfo(text: &str) -> (r: Result<MemoryStats, AdbError>)
    ensures
        memory_result(meminfo_spec(text@), r),
{
    let cs = chars_of(text);
    let ls = split_lines(cs.as_slice());
    let ghost all = lines(text@);
    let mut vals: Vec<Option<u64>> = vec![None, None, None, None, None];
    let mut i: usize = 0;
    proof {
        assert(all.take(0) =~= Seq::<Seq<char>>::empty());
    }
    while i < ls.len()
        invariant
            i <= ls@.len() == all.len(),
            cs@ == text@,
            all == lines(text@),
            forall|j: int| 0 <= j < ls@.len() ==> #[trigger] ls@[j]@ == all[j],
            meminfo_error(all.take(i as int)) is None,
            vals@.len() == 5,
            forall|k: int| 0 <= k < 5 ==> opt_view(#[trigger] vals@[k]) == last_value(all.take(i as int), field_name(k)),
        decreases ls@.len() - i,
    {
        let line = &ls[i];
        let ghost l = all[i as int];
        let ghost pre = all.take(i as int);
        assert(all.take(i + 1).drop_last() =~= pre);
        assert(all.take(i + 1).last() == l);
        let c = find_char(line.as_slice(), ':', 0);
        if c < line.len() {
            let key = trimmed(vstd::slice::slice_subrange(line.as_slice(), 0, c));
            let value = string_of(vstd::slice::slice_subrange(line.as_slice(), c + 1, line.len()));
            assert(key@ == trim(l.take(c as int)));
            assert(value@ =~= line_value(l));
            let kb = match parse_kb_value(value.as_str()) {
                Ok(v) => v,
                Err(e) => {
                    proof {
                        lemma_meminfo_error_prefix(all, i + 1);
                    }
                    return Err(e);
                },
            };
            assert(line_key(l) == Some(key@));
            let k = field_index(key.as_slice());
            if k < 5 {
                vals.set(k, Some(kb));
            }
            proof {
                assert forall|q: int| 0 <= q < 5 implies opt_view(#[trigger] vals@[q]) == last_value(
                    all.take(i + 1),
                    field_name(q),
                ) by {
                    if q != k && k < 5 {
                        lemma_field_names_distinct(k as int, q);
                    }
                }
            }
        } else {
            assert(line_key(l) is None);
        }
        i = i + 1;
    }
    assert(all.take(i as int) =~= all);
    let total = match vals[0] {
        Some(t) => t,
        None => {
            return Err(AdbError::ParseFailed(string_of(chars_of("missing MemTotal").as_slice())));
        },
    };
    let m = MemoryStats {
        total_kb: total,
        free_kb: match vals[1] {
            Some(v) => v,
            None => 0,
        },
        available_kb: match vals[2] {
            Some(v) => v,
            None => 0,
        },
        buffers_kb: match vals[3] {
            Some(v) => v,
            None => 0,
        },
        cached_kb: match vals[4] {
            Some(v) => v,
            None => 0,
        },
    };
    assert(field_name(1) == "MemFree"@);
    assert(field_name(2) == "MemAvailable"@);
    assert(field_name(3) == "Buffers"@);
    assert(field_name(4) == "Cached"@);
    Ok(m)
}

/// Once a prefix of the lines holds an invalid value, the whole text does.
proof fn lemma_meminfo_error_prefix(all: Seq<Seq<char>>, k: int)
    requires
        0 <= k <= all.len(),
        meminfo_error(all.take(k)) is Some,
    ensures
        meminfo_error(all) == meminfo_error(all.take(k)),
    decreases all.len() - k,
{
    if k < all.len() {
        assert(all.take(k + 1).drop_last() =~= all.take(k));
        lemma_meminfo_error_prefix(all, k + 1);
    } else {
        assert(all.take(k) =~= all);
    }
}

/// The arguments that read `/proc/meminfo`.
pub open spec fn meminfo_args() -> Seq<Seq<char>> {
    seq!["shell"@, "cat"@, "/proc/meminfo"@]
}

/// The memory statistics of a device, given how
/// `adb -s <serial> shell cat /proc/meminfo` ended: the parse of its decoded
/// stdout, or the error of the run.
pub fn fetch_memory_stats(serial: &str, outcome: Result<CommandOutput, IoFailure>) -> (r: Result<
    MemoryStats,
    AdbError,
>)
    ensures
        match succeeded(outcome) {
            Some(out) => memory_result(meminfo_spec(lossy_utf8(out.stdout@)), r),
            None => run_failed(serial_args(serial@, meminfo_args()), outcome, r),
        },
{
    let args = ["shell", "cat", "/proc/meminfo"];
    assert(arg_views(args@) =~= meminfo_args());
    let run = run_adb_for_serial(serial, &args, outcome);
    match run {
        Err(e) => Err(e),
        Ok(output) => {
            let text = utf8_lossy(output.stdout.as_slice());
            parse_meminfo(text.as_str())
        },
    }
}

/// A snapshot of the memory statistics taken at `timestamp`, as
/// `fetch_memory_stats` reads them.
pub fn fetch_system_stats(
    serial: &str,
    outcome: Result<CommandOutput, IoFailure>,
    timestamp: std::time::SystemTime,
) -> (r: Result<SystemStats, AdbError>)
    ensures
        match succeeded(outcome) {
            Some(out) => match meminfo_spec(lossy_utf8(out.stdout@)) {
                Ok(f) => r matches Ok(s) && memory_view(s.memory) == f && s.timestamp == timestamp,
                Err(e) => r matches Err(AdbError::ParseFailed(m)) && m@ == e,
            },
            None => run_failed(serial_args(serial@, meminfo_args()), outcome, r),
        },
{
    match fetch_memory_stats(serial, outcome) {
        Ok(memory) => Ok(SystemStats { memory, timestamp }),
        Err(e) => Err(e),
    }
}

} // verus!
