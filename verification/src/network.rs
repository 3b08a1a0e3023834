//! Network interfaces: byte counters from `/proc/net/dev`, transports from
//! `dumpsys netstats`, and which interfaces count toward device totals.

use vstd::prelude::*;

use crate::adb::{arg_views, run_adb_for_serial, run_failed, serial_args, succeeded,
    CommandOutput, IoFailure};
use crate::device::rest_lines;
use crate::error::AdbError;
use crate::poll::{backoff, backoff_interval, Interval};
use crate::scan::{
    lemma_run_end_bounds, literal_at, non_ws, run_end, skip_non_ws, skip_word, skip_ws_run, word,
    ws,
};
use crate::text::{
    chars_of, concat, eq_str, find_char, find_from, has_prefix, lines, lossy_utf8, lowercase,
    occurs_at, parse_unsigned, parse_unsigned_exec, split_lines, split_tokens, starts_with,
    string_of, to_lowercase, to_uppercase_char, tokens, trim, trimmed, uppercase, utf8_lossy,
};
use crate::textmap::{map_of, TextMap};

verus! {

/// Milliseconds between polls while they succeed.
pub const DEFAULT_POLL_MILLIS: u64 = 1000;

/// Milliseconds after which the transport of each interface is read again.
pub const TRANSPORT_REFRESH_MILLIS: u64 = 10000;

/// The longest wait between polls after failures, in milliseconds.
pub const MAX_BACKOFF_MILLIS: u64 = 5000;

/// How much longer each failed poll makes the wait, in milliseconds.
pub const BACKOFF_STEP_MILLIS: u64 = 1000;

/// The poll interval after a failed poll: one second longer, at most five.
pub fn next_backoff_interval(current: Interval) -> (r: Interval)
    ensures
        r.millis == backoff(current.millis as nat, BACKOFF_STEP_MILLIS as nat, MAX_BACKOFF_MILLIS as nat),
{
    backoff_interval(current, Interval::from_millis(BACKOFF_STEP_MILLIS), Interval::from_millis(MAX_BACKOFF_MILLIS))
}

// ---------------------------------------------------------------------------
// Interface names
// ---------------------------------------------------------------------------

/// Name prefixes of virtual interfaces (tunnels, dummies, queueing devices).
pub open spec fn virtual_prefix(i: int) -> Seq<char> {
    if i == 0 {
        "dummy"@
    } else if i == 1 {
        "ifb"@
    } else if i == 2 {
        "tunl"@
    } else if i == 3 {
        "sit"@
    } else if i == 4 {
        "ip6tnl"@
    } else if i == 5 {
        "gre"@
    } else if i == 6 {
        "ip6gre"@
    } else {
        "teql"@
    }
}

fn virtual_prefix_str(i: usize) -> (r: &'static str)
    requires
        i < 8,
    ensures
        r@ == virtual_prefix(i as int),
{
    if i == 0 {
        "dummy"
    } else if i == 1 {
        "ifb"
    } else if i == 2 {
        "tunl"
    } else if i == 3 {
        "sit"
    } else if i == 4 {
        "ip6tnl"
    } else if i == 5 {
        "gre"
    } else if i == 6 {
        "ip6gre"
    } else {
        "teql"
    }
}

/// The lower-cased name starts with one of the virtual prefixes.
pub open spec fn is_virtual_spec(iface: Seq<char>) -> bool {
    exists|i: int| 0 <= i < 8 && #[trigger] starts_with(lowercase(iface), virtual_prefix(i))
}

/// Whether `iface` names a virtual interface: its lower-cased name starts
/// with one of the virtual prefixes.
pub fn is_virtual_interface(iface: &str) -> (r: bool)
    ensures
        r == is_virtual_spec(iface@),
{
    let lower = to_lowercase(iface);
    let l = chars_of(lower.as_str());
    let mut i: usize = 0;
    while i < 8
        invariant
            i <= 8,
            l@ == lowercase(iface@),
            forall|j: int| 0 <= j < i ==> !#[trigger] starts_with(l@, virtual_prefix(j)),
        decreases 8 - i,
    {
        let p = chars_of(virtual_prefix_str(i));
        if has_prefix(l.as_slice(), p.as_slice()) {
            return true;
        }
        i = i + 1;
    }
    false
}

/// The transport that an interface name suggests, from its lower-cased form.
pub open spec fn infer_spec(lower: Seq<char>) -> Seq<char> {
    if starts_with(lower, "wlan"@) || starts_with(lower, "wifi"@) {
        "WiFi"@
    } else if starts_with(lower, "rmnet"@) || starts_with(lower, "ccmni"@) || starts_with(
        lower,
        "pdp"@,
    ) || starts_with(lower, "wwan"@) {
        "Mobile"@
    } else if starts_with(lower, "eth"@) {
        "Ethernet"@
    } else {
        "Other"@
    }
}

fn starts(l: &Vec<char>, p: &str) -> (r: bool)
    ensures
        r == starts_with(l@, p@),
{
    let pc = chars_of(p);
    has_prefix(l.as_slice(), pc.as_slice())
}

/// The transport that the interface name `iface` suggests.
pub fn infer_transport(iface: &str) -> (r: &'static str)
    ensures
        r@ == infer_spec(lowercase(iface@)),
{
    let lower = to_lowercase(iface);
    let l = chars_of(lower.as_str());
    if starts(&l, "wlan") || starts(&l, "wifi") {
        "WiFi"
    } else if starts(&l, "rmnet") || starts(&l, "ccmni") || starts(&l, "pdp") || starts(&l, "wwan") {
        "Mobile"
    } else if starts(&l, "eth") {
        "Ethernet"
    } else {
        "Other"
    }
}

proof fn lemma_prefix_agrees(l: Seq<char>, p: Seq<char>)
    ensures
        starts_with(l, p) == p.is_prefix_of(l),
{
    if p.len() <= l.len() {
        assert(l.take(p.len() as int) =~= l.subrange(0, p.len() as int));
    }
}

/// The transport that `infer_transport` gives an interface, by the prefix of
/// its lower-cased name: `wlan` or `wifi` is WiFi; `rmnet`, `ccmni`, `pdp` or
/// `wwan` is Mobile; `eth` is Ethernet; a name with none of these prefixes is
/// Other.
pub proof fn transport_by_prefix(iface: Seq<char>)
    ensures
        ({
            let l = lowercase(iface);
            let wifi = "wlan"@.is_prefix_of(l) || "wifi"@.is_prefix_of(l);
            let mobile = "rmnet"@.is_prefix_of(l) || "ccmni"@.is_prefix_of(l) || "pdp"@.is_prefix_of(l)
                || "wwan"@.is_prefix_of(l);
            let ethernet = "eth"@.is_prefix_of(l);
            &&& wifi ==> infer_spec(l) == "WiFi"@
            &&& mobile ==> infer_spec(l) == "Mobile"@
            &&& ethernet ==> infer_spec(l) == "Ethernet"@
            &&& (!wifi && !mobile && !ethernet) ==> infer_spec(l) == "Other"@
        }),
{
    let l = lowercase(iface);
    reveal_strlit("wlan");
    reveal_strlit("wifi");
    reveal_strlit("rmnet");
    reveal_strlit("ccmni");
    reveal_strlit("pdp");
    reveal_strlit("wwan");
    reveal_strlit("eth");
    lemma_prefix_agrees(l, "wlan"@);
    lemma_prefix_agrees(l, "wifi"@);
    lemma_prefix_agrees(l, "rmnet"@);
    lemma_prefix_agrees(l, "ccmni"@);
    lemma_prefix_agrees(l, "pdp"@);
    lemma_prefix_agrees(l, "wwan"@);
    lemma_prefix_agrees(l, "eth"@);
    lemma_prefix_chars(l, "wlan"@);
    lemma_prefix_chars(l, "wifi"@);
    lemma_prefix_chars(l, "rmnet"@);
    lemma_prefix_chars(l, "ccmni"@);
    lemma_prefix_chars(l, "pdp"@);
    lemma_prefix_chars(l, "wwan"@);
    lemma_prefix_chars(l, "eth"@);
    assert("wlan"@[0] == 'w' && "wlan"@[1] == 'l');
    assert("wifi"@[0] == 'w' && "wifi"@[1] == 'i');
    assert("rmnet"@[0] == 'r' && "rmnet"@[1] == 'm');
    assert("ccmni"@[0] == 'c' && "ccmni"@[1] == 'c');
    assert("pdp"@[0] == 'p' && "pdp"@[1] == 'd');
    assert("wwan"@[0] == 'w' && "wwan"@[1] == 'w');
    assert("eth"@[0] == 'e' && "eth"@[1] == 't');
}

proof fn lemma_prefix_chars(l: Seq<char>, p: Seq<char>)
    ensures
        p.is_prefix_of(l) ==> p.len() <= l.len() && forall|i: int| 0 <= i < p.len() ==> l[i] == #[trigger] p[i],
{
    if p.is_prefix_of(l) {
        assert forall|i: int| 0 <= i < p.len() implies l[i] == #[trigger] p[i] by {
            assert(l.subrange(0, p.len() as int)[i] == l[i]);
        }
    }
}

/// What `is_virtual_interface` answers: an interface is virtual exactly when
/// its lower-cased name starts with `dummy`, `ifb`, `tunl`, `sit`, `ip6tnl`,
/// `gre`, `ip6gre` or `teql`.
pub proof fn virtual_by_prefix(iface: Seq<char>)
    ensures
        ({
            let l = lowercase(iface);
            is_virtual_spec(iface) == ("dummy"@.is_prefix_of(l) || "ifb"@.is_prefix_of(l)
                || "tunl"@.is_prefix_of(l) || "sit"@.is_prefix_of(l) || "ip6tnl"@.is_prefix_of(l)
                || "gre"@.is_prefix_of(l) || "ip6gre"@.is_prefix_of(l) || "teql"@.is_prefix_of(l))
        }),
{
    let l = lowercase(iface);
    assert forall|i: int| 0 <= i < 8 implies #[trigger] starts_with(l, virtual_prefix(i))
        == virtual_prefix(i).is_prefix_of(l) by {
        lemma_prefix_agrees(l, virtual_prefix(i));
    }
    assert(virtual_prefix(0) == "dummy"@);
    assert(virtual_prefix(1) == "ifb"@);
    assert(virtual_prefix(2) == "tunl"@);
    assert(virtual_prefix(3) == "sit"@);
    assert(virtual_prefix(4) == "ip6tnl"@);
    assert(virtual_prefix(5) == "gre"@);
    assert(virtual_prefix(6) == "ip6gre"@);
    assert(virtual_prefix(7) == "teql"@);
    if "dummy"@.is_prefix_of(l) {
        assert(starts_with(l, virtual_prefix(0)));
    }
    if "ifb"@.is_prefix_of(l) {
        assert(starts_with(l, virtual_prefix(1)));
    }
    if "tunl"@.is_prefix_of(l) {
        assert(starts_with(l, virtual_prefix(2)));
    }
    if "sit"@.is_prefix_of(l) {
        assert(starts_with(l, virtual_prefix(3)));
    }
    if "ip6tnl"@.is_prefix_of(l) {
        assert(starts_with(l, virtual_prefix(4)));
    }
    if "gre"@.is_prefix_of(l) {
        assert(starts_with(l, virtual_prefix(5)));
    }
    if "ip6gre"@.is_prefix_of(l) {
        assert(starts_with(l, virtual_prefix(6)));
    }
    if "teql"@.is_prefix_of(l) {
        assert(starts_with(l, virtual_prefix(7)));
    }
}

/// An interface counts toward the device totals when its transport is a
/// real one (WiFi, Mobile, Ethernet) and it is not virtual.
pub open spec fn counts_spec(interface: Seq<char>, transport: Seq<char>) -> bool {
    (transport == "WiFi"@ || transport == "Mobile"@ || transport == "Ethernet"@) && !is_virtual_spec(
        interface,
    )
}

/// Whether the interface `interface` with transport `transport` counts
/// toward the device-wide throughput.
pub fn counts_toward_device_total(interface: &str, transport: &str) -> (r: bool)
    ensures
        r == counts_spec(interface@, transport@),
{
    let t = chars_of(transport);
    (eq_str(t.as_slice(), "WiFi") || eq_str(t.as_slice(), "Mobile") || eq_str(t.as_slice(), "Ethernet"))
        && !is_virtual_interface(interface)
}

// ---------------------------------------------------------------------------
// /proc/net/dev
// ---------------------------------------------------------------------------

/// The interface name and received and sent byte counts of a `/proc/net/dev`
/// line: the trimmed part before its first `:` (not empty), and the first and
/// ninth of the fields after it (at least nine, both unsigned 64-bit numbers).
pub open spec fn proc_entry(l: Seq<char>) -> Option<(Seq<char>, u64, u64)> {
    let c = find_from(l, ':', 0);
    let name = trim(l.take(c));
    let parts = tokens(l.skip(c + 1));
    if c >= l.len() || name.len() == 0 || parts.len() < 9 {
        None
    } else {
        match (parse_unsigned(parts[0], u64::MAX as nat), parse_unsigned(parts[8], u64::MAX as nat)) {
            (Some(rx), Some(tx)) => Some((name, rx as u64, tx as u64)),
            _ => None,
        }
    }
}

/// The entries of the lines `ls` that read as interfaces, in order.
pub open spec fn proc_entries(ls: Seq<Seq<char>>) -> Seq<(Seq<char>, u64, u64)>
    decreases ls.len(),
{
    if ls.len() == 0 {
        seq![]
    } else {
        match proc_entry(ls.last()) {
            Some(e) => proc_entries(ls.drop_last()).push(e),
            None => proc_entries(ls.drop_last()),
        }
    }
}

/// What `/proc/net/dev` text lists: the interfaces of the lines after the
/// two header lines.
pub open spec fn proc_net_dev_spec(text: Seq<char>) -> Seq<(Seq<char>, u64, u64)> {
    proc_entries(rest_lines(rest_lines(lines(text))))
}

/// The name and counters of an entry.
pub open spec fn entry_view(e: (String, u64, u64)) -> (Seq<char>, u64, u64) {
    (e.0@, e.1, e.2)
}

/// Reads the interfaces of `/proc/net/dev` text, as `proc_net_dev_spec` says.
pub fn parse_proc_net_dev(text: &str) -> (r: Vec<(String, u64, u64)>)
    ensures
        r@.map_values(|e: (String, u64, u64)| entry_view(e)) == proc_net_dev_spec(text@),
{
    let cs = chars_of(text);
    let ls = split_lines(cs.as_slice());
    let ghost all = lines(text@);
    let ghost body = rest_lines(rest_lines(all));
    let mut out: Vec<(String, u64, u64)> = Vec::new();
    if ls.len() < 2 {
        proof {
            assert(body =~= Seq::<Seq<char>>::empty());
        }
        assert(out@.map_values(|e: (String, u64, u64)| entry_view(e)) =~= proc_entries(body));
        return out;
    }
    let mut i: usize = 2;
    assert(body.take(0) =~= Seq::<Seq<char>>::empty());
    assert(out@.map_values(|e: (String, u64, u64)| entry_view(e)) =~= proc_entries(body.take(0)));
    while i < ls.len()
        invariant
            2 <= i <= ls@.len() == all.len(),
            all == lines(text@),
            body == rest_lines(rest_lines(all)),
            body.len() == all.len() - 2,
            forall|j: int| 0 <= j < body.len() ==> #[trigger] body[j] == all[j + 2],
            forall|j: int| 0 <= j < ls@.len() ==> #[trigger] ls@[j]@ == all[j],
            out@.map_values(|e: (String, u64, u64)| entry_view(e)) == proc_entries(body.take(i - 2)),
        decreases ls@.len() - i,
    {
        let ghost l = body[i - 2];
        assert(body.take(i - 1).drop_last() =~= body.take(i - 2));
        assert(body.take(i - 1).last() == l);
        assert(ls@[i as int]@ == l);
        let line = &ls[i];
        let c = find_char(line.as_slice(), ':', 0);
        if c < line.len() {
            let name = trimmed(vstd::slice::slice_subrange(line.as_slice(), 0, c));
            assert(name@ =~= trim(l.take(c as int)));
            let rest = vstd::slice::slice_subrange(line.as_slice(), c + 1, line.len());
            assert(rest@ =~= l.skip(c + 1));
            let parts = split_tokens(rest);
            if name.len() > 0 && parts.len() >= 9 {
                let rx = parse_unsigned_exec(parts[0].as_slice(), u64::MAX);
                let tx = parse_unsigned_exec(parts[8].as_slice(), u64::MAX);
                match (rx, tx) {
                    (Some(rx), Some(tx)) => {
                        let ghost old_out = out@;
                        out.push((string_of(name.as_slice()), rx, tx));
                        assert(out@.map_values(|e: (String, u64, u64)| entry_view(e)) =~= old_out.map_values(
                            |e: (String, u64, u64)| entry_view(e),
                        ).push((name@, rx, tx)));
                    },
                    _ => {},
                }
            }
        }
        i = i + 1;
    }
    assert(body.take(i - 2) =~= body);
    out
}

// ---------------------------------------------------------------------------
// dumpsys netstats
// ---------------------------------------------------------------------------

/// A match of `iface=(\S+)\s+ident=\[\{type=(\w+)` starting at `p`: the bounds
/// of the interface name and of the type, or `None`.
pub open spec fn netstats_match(s: Seq<char>, p: int) -> Option<(int, int, int, int)> {
    let a = p + 6;
    let b = run_end(s, a, non_ws());
    let c = run_end(s, b, ws());
    let d = c + 13;
    let e = run_end(s, d, word());
    if 0 <= p && occurs_at(s, "iface="@, p) && b > a && c > b && occurs_at(s, "ident=[{type="@, c)
        && e > d {
        Some((a, b, d, e))
    } else {
        None
    }
}

/// The first position `>= pos` at which a match starts, or `s.len()`.
pub open spec fn next_netstats_match(s: Seq<char>, pos: int) -> int
    decreases s.len() - pos,
{
    if pos >= s.len() || pos < 0 {
        s.len() as int
    } else if netstats_match(s, pos) is Some {
        pos
    } else {
        next_netstats_match(s, pos + 1)
    }
}

proof fn lemma_next_match(s: Seq<char>, pos: int)
    requires
        0 <= pos <= s.len(),
    ensures
        pos <= next_netstats_match(s, pos) <= s.len(),
        next_netstats_match(s, pos) < s.len() ==> netstats_match(s, next_netstats_match(s, pos)) is Some,
        forall|q: int| pos <= q < next_netstats_match(s, pos) ==> netstats_match(s, q) is None,
    decreases s.len() - pos,
{
    if pos < s.len() && netstats_match(s, pos) is None {
        lemma_next_match(s, pos + 1);
    }
}

proof fn lemma_next_match_is(s: Seq<char>, pos: int, k: int)
    requires
        0 <= pos <= k <= s.len(),
        k < s.len() ==> netstats_match(s, k) is Some,
        forall|q: int| pos <= q < k ==> netstats_match(s, q) is None,
    ensures
        next_netstats_match(s, pos) == k,
    decreases k - pos,
{
    if pos < k {
        lemma_next_match_is(s, pos + 1, k);
    }
}

proof fn lemma_match_end(s: Seq<char>, p: int)
    requires
        netstats_match(s, p) is Some,
    ensures
        ({
            let (a, b, d, e) = netstats_match(s, p).unwrap();
            p < a < b < d < e <= s.len()
        }),
{
    let a = p + 6;
    lemma_run_end_bounds(s, a, non_ws());
    let b = run_end(s, a, non_ws());
    lemma_run_end_bounds(s, b, ws());
    let c = run_end(s, b, ws());
    lemma_run_end_bounds(s, c + 13, word());
}

/// The interface names and types of the successive matches from `pos` on,
/// each search starting where the previous match ended.
pub open spec fn netstats_captures(s: Seq<char>, pos: int) -> Seq<(Seq<char>, Seq<char>)>
    decreases s.len() - pos,
{
    let p = next_netstats_match(s, pos);
    if pos < 0 || pos >= s.len() || p >= s.len() {
        seq![]
    } else {
        match netstats_match(s, p) {
            Some((a, b, d, e)) => if e > pos && e <= s.len() {
                seq![(s.subrange(a, b), s.subrange(d, e))] + netstats_captures(s, e)
            } else {
                seq![]
            },
            None => seq![],
        }
    }
}

/// Tests for a match at `p`, giving its bounds.
fn netstats_match_at(s: &[char], p: usize) -> (r: Option<(usize, usize, usize, usize)>)
    requires
        p <= s@.len(),
    ensures
        match r {
            Some((a, b, d, e)) => netstats_match(s@, p as int) == Some((a as int, b as int, d as int, e as int)),
            None => netstats_match(s@, p as int) is None,
        },
{
    if !literal_at(s, "iface=", p) {
        return None;
    }
    proof {
        reveal_strlit("iface=");
    }
    assert("iface="@.len() == 6);
    assert(p + 6 <= s@.len());
    assert(s@.len() == s.len());
    let a = p + 6;
    let b = skip_non_ws(s, a);
    proof {
        lemma_run_end_bounds(s@, a as int, non_ws());
    }
    if b == a {
        return None;
    }
    let c = skip_ws_run(s, b);
    proof {
        lemma_run_end_bounds(s@, b as int, ws());
    }
    if c == b || !literal_at(s, "ident=[{type=", c) {
        return None;
    }
    proof {
        reveal_strlit("ident=[{type=");
    }
    assert("ident=[{type="@.len() == 13);
    assert(c + 13 <= s@.len());
    assert(s@.len() == s.len());
    let d = c + 13;
    let e = skip_word(s, d);
    proof {
        lemma_run_end_bounds(s@, d as int, word());
    }
    if e == d {
        return None;
    }
    Some((a, b, d, e))
}

/// The interface names and transport types that `dumpsys netstats` text
/// names, as `netstats_captures` gives them from the start.
pub fn netstats_pairs(text: &str) -> (r: Vec<(Vec<char>, Vec<char>)>)
    ensures
        r@.map_values(|e: (Vec<char>, Vec<char>)| (e.0@, e.1@)) == netstats_captures(text@, 0),
{
    let s = chars_of(text);
    let mut out: Vec<(Vec<char>, Vec<char>)> = Vec::new();
    let mut pos: usize = 0;
    let mut p: usize = 0;
    while p < s.len()
        invariant
            pos <= p <= s@.len(),
            s@ == text@,
            forall|q: int| pos <= q < p ==> netstats_match(s@, q) is None,
            out@.map_values(|e: (Vec<char>, Vec<char>)| (e.0@, e.1@)) + netstats_captures(s@, pos as int)
                == netstats_captures(s@, 0),
        decreases s@.len() - p,
    {
        match netstats_match_at(s.as_slice(), p) {
            None => {
                p = p + 1;
            },
            Some((a, b, d, e)) => {
                proof {
                    lemma_next_match_is(s@, pos as int, p as int);
                    lemma_match_end(s@, p as int);
                }
                let iface = vstd::slice::slice_to_vec(vstd::slice::slice_subrange(s.as_slice(), a, b));
                let ty = vstd::slice::slice_to_vec(vstd::slice::slice_subrange(s.as_slice(), d, e));
                let ghost old_out = out@;
                let ghost cap = (s@.subrange(a as int, b as int), s@.subrange(d as int, e as int));
                assert(netstats_captures(s@, pos as int) == seq![cap] + netstats_captures(s@, e as int));
                out.push((iface, ty));
                assert(out@.map_values(|e: (Vec<char>, Vec<char>)| (e.0@, e.1@)) =~= old_out.map_values(
                    |e: (Vec<char>, Vec<char>)| (e.0@, e.1@),
                ).push(cap));
                assert(old_out.map_values(|e: (Vec<char>, Vec<char>)| (e.0@, e.1@)).push(cap)
                    + netstats_captures(s@, e as int) =~= old_out.map_values(
                    |e: (Vec<char>, Vec<char>)| (e.0@, e.1@),
                ) + (seq![cap] + netstats_captures(s@, e as int)));
                pos = e;
                p = e;
            },
        }
    }
    proof {
        lemma_next_match_is(s@, pos as int, s@.len() as int);
    }
    assert(netstats_captures(s@, pos as int) =~= Seq::<(Seq<char>, Seq<char>)>::empty());
    assert(out@.map_values(|e: (Vec<char>, Vec<char>)| (e.0@, e.1@)) =~= netstats_captures(s@, 0));
    out
}

/// Whether a transport type can be formatted: one of the three known types,
/// or one whose lower-cased form is empty or starts with an ASCII character
/// (formatting slices the lower-cased form after its first byte).
pub open spec fn formattable(raw: Seq<char>) -> bool {
    raw == "WIFI"@ || raw == "MOBILE"@ || raw == "ETHERNET"@ || lowercase(raw).len() == 0 || (
    lowercase(raw)[0] as u32) < 0x80
}

/// The label of a transport type: the three known types spelled out, any
/// other with its lower-cased form's first character upper-cased.
pub open spec fn transport_label(raw: Seq<char>) -> Seq<char> {
    if raw == "WIFI"@ {
        "WiFi"@
    } else if raw == "MOBILE"@ {
        "Mobile"@
    } else if raw == "ETHERNET"@ {
        "Ethernet"@
    } else if lowercase(raw).len() == 0 {
        raw
    } else {
        uppercase(lowercase(raw)[0]) + lowercase(raw).skip(1)
    }
}

/// Formats a transport type as `transport_label` says.
pub fn format_transport(raw: &str) -> (r: String)
    requires
        formattable(raw@),
    ensures
        r@ == transport_label(raw@),
{
    let rc = chars_of(raw);
    if eq_str(rc.as_slice(), "WIFI") {
        return string_of(chars_of("WiFi").as_slice());
    } else if eq_str(rc.as_slice(), "MOBILE") {
        return string_of(chars_of("Mobile").as_slice());
    } else if eq_str(rc.as_slice(), "ETHERNET") {
        return string_of(chars_of("Ethernet").as_slice());
    }
    let lower = to_lowercase(raw);
    let l = chars_of(lower.as_str());
    if l.len() == 0 {
        return string_of(rc.as_slice());
    }
    let first = to_uppercase_char(l[0]);
    let rest = string_of(vstd::slice::slice_subrange(l.as_slice(), 1, l.len()));
    assert(rest@ =~= lowercase(raw@).skip(1));
    concat(first.as_str(), rest.as_str())
}

/// The map that the captures give: each interface bound to the label of its
/// type, a later capture for an interface overriding an earlier one.
pub open spec fn transports_map(caps: Seq<(Seq<char>, Seq<char>)>) -> Map<Seq<char>, Seq<char>>
    decreases caps.len(),
{
    if caps.len() == 0 {
        Map::empty()
    } else {
        transports_map(caps.drop_last()).insert(caps.last().0, transport_label(caps.last().1))
    }
}

/// Every captured type can be formatted.
pub open spec fn all_formattable(caps: Seq<(Seq<char>, Seq<char>)>) -> bool {
    forall|i: int| 0 <= i < caps.len() ==> formattable(#[trigger] caps[i].1)
}

/// The views of a map's string values.
pub open spec fn label_views(m: Map<Seq<char>, String>) -> Map<Seq<char>, Seq<char>> {
    m.map_values(|v: String| v@)
}

/// The transport of each interface that `dumpsys netstats` text names, as
/// `transports_map` gives them from its captures.
pub fn parse_netstats_transports(text: &str) -> (r: TextMap<String>)
    requires
        all_formattable(netstats_captures(text@, 0)),
    ensures
        label_views(r@) == transports_map(netstats_captures(text@, 0)),
{
    let pairs = netstats_pairs(text);
    let ghost caps = netstats_captures(text@, 0);
    let mut m: TextMap<String> = TextMap::new();
    let mut i: usize = 0;
    assert(label_views(m@) =~= transports_map(caps.take(0)));
    while i < pairs.len()
        invariant
            i <= pairs@.len() == caps.len(),
            caps == netstats_captures(text@, 0),
            all_formattable(caps),
            forall|j: int| 0 <= j < pairs@.len() ==> (#[trigger] pairs@[j]).0@ == caps[j].0 && pairs@[j].1@ == caps[j].1,
            label_views(m@) == transports_map(caps.take(i as int)),
        decreases pairs@.len() - i,
    {
        assert(pairs@.map_values(|e: (Vec<char>, Vec<char>)| (e.0@, e.1@))[i as int] == caps[i as int]);
        let iface = string_of(pairs[i].0.as_slice());
        let ty = string_of(pairs[i].1.as_slice());
        assert(formattable(caps[i as int].1));
        let label = format_transport(ty.as_str());
        let ghost before = m@;
        m.insert(iface, label);
        assert(caps.take(i + 1).drop_last() =~= caps.take(i as int));
        assert(label_views(m@) =~= label_views(before).insert(caps[i as int].0, transport_label(caps[i as int].1)));
        i = i + 1;
    }
    assert(caps.take(i as int) =~= caps);
    m
}

/// The transports of `dumpsys netstats` text when every captured type can be
/// formatted (as `parse_netstats_transports` gives them), else `None`: the
/// input on which formatting a type would slice inside a character.
pub fn checked_netstats_transports(text: &str) -> (r: Option<TextMap<String>>)
    ensures
        match r {
            Some(m) => all_formattable(netstats_captures(text@, 0)) && label_views(m@)
                == transports_map(netstats_captures(text@, 0)),
            None => !all_formattable(netstats_captures(text@, 0)),
        },
{
    let pairs = netstats_pairs(text);
    let ghost caps = netstats_captures(text@, 0);
    let mut i: usize = 0;
    while i < pairs.len()
        invariant
            i <= pairs@.len() == caps.len(),
            caps == netstats_captures(text@, 0),
            forall|j: int| 0 <= j < pairs@.len() ==> (#[trigger] pairs@[j]).0@ == caps[j].0 && pairs@[j].1@ == caps[j].1,
            forall|j: int| 0 <= j < i ==> formattable(#[trigger] caps[j].1),
        decreases pairs@.len() - i,
    {
        assert(pairs@.map_values(|e: (Vec<char>, Vec<char>)| (e.0@, e.1@))[i as int] == caps[i as int]);
        let ty = string_of(pairs[i].1.as_slice());
        let known = eq_str(pairs[i].1.as_slice(), "WIFI") || eq_str(pairs[i].1.as_slice(), "MOBILE")
            || eq_str(pairs[i].1.as_slice(), "ETHERNET");
        if !known {
            let lower = to_lowercase(ty.as_str());
            let l = chars_of(lower.as_str());
            if l.len() > 0 && (l[0] as u32) >= 0x80 {
                return None;
            }
        }
        i = i + 1;
    }
    Some(parse_netstats_transports(text))
}

// ---------------------------------------------------------------------------
// Transport of each interface
// ---------------------------------------------------------------------------

/// A transport must be read again when it is stale, or when an interface
/// other than `lo` has none yet.
pub open spec fn refresh_needed(
    names: Seq<Seq<char>>,
    known: Map<Seq<char>, String>,
    stale: bool,
) -> bool {
    stale || exists|i: int| 0 <= i < names.len() && names[i] != "lo"@ && !known.dom().contains(
        #[trigger] names[i],
    )
}

/// Whether the transports must be read again, given the interfaces just
/// listed, the transports known so far, and whether they are stale.
pub fn needs_transport_refresh(
    interfaces: &Vec<(String, u64, u64)>,
    known: &TextMap<String>,
    stale: bool,
) -> (r: bool)
    ensures
        r == refresh_needed(interfaces@.map_values(|e: (String, u64, u64)| e.0@), known@, stale),
{
    let ghost names = interfaces@.map_values(|e: (String, u64, u64)| e.0@);
    if stale {
        return true;
    }
    let mut i: usize = 0;
    while i < interfaces.len()
        invariant
            i <= interfaces@.len(),
            names == interfaces@.map_values(|e: (String, u64, u64)| e.0@),
            forall|j: int| 0 <= j < i ==> !(names[j] != "lo"@ && !known@.dom().contains(#[trigger] names[j])),
        decreases interfaces@.len() - i,
    {
        let n = chars_of(interfaces[i].0.as_str());
        assert(names[i as int] == interfaces@[i as int].0@);
        if !eq_str(n.as_slice(), "lo") && known.get(interfaces[i].0.as_str()).is_none() {
            return true;
        }
        i = i + 1;
    }
    false
}

/// Refreshes the known transports: those read from `dumpsys netstats` (when
/// it could be read) override the known ones, then each listed interface
/// other than `lo` that still has none gets the one its name suggests.
pub fn refresh_transports(
    known: &mut TextMap<String>,
    read: Option<TextMap<String>>,
    interfaces: &Vec<(String, u64, u64)>,
)
    ensures
        forall|k: Seq<char>| #[trigger] final(known)@.dom().contains(k) <==> (old(known)@.dom().contains(k)
            || (read is Some && read.unwrap()@.dom().contains(k)) || (k != "lo"@ && exists|i: int|
            0 <= i < interfaces@.len() && interfaces@[i].0@ == k)),
        forall|k: Seq<char>| #[trigger] final(known)@.dom().contains(k) ==> final(known)@[k]@ == if read is Some
            && read.unwrap()@.dom().contains(k) {
            read.unwrap()@[k]@
        } else if old(known)@.dom().contains(k) {
            old(known)@[k]@
        } else {
            infer_spec(lowercase(k))
        },
{
    let ghost before = known@;
    if let Some(r) = read {
        let mut i: usize = 0;
        while i < r.len()
            invariant
                i <= r.entries().len(),
                forall|k: Seq<char>| #[trigger] known@.dom().contains(k) <==> (before.dom().contains(k)
                    || map_of(r.entries().take(i as int)).dom().contains(k)),
                forall|k: Seq<char>| #[trigger] known@.dom().contains(k) ==> known@[k]@ == if map_of(
                    r.entries().take(i as int),
                ).dom().contains(k) {
                    map_of(r.entries().take(i as int))[k]@
                } else {
                    before[k]@
                },
            decreases r.entries().len() - i,
        {
            let e = r.entry(i);
            let key = string_of(chars_of(e.0.as_str()).as_slice());
            let val = string_of(chars_of(e.1.as_str()).as_slice());
            assert(r.entries().take(i + 1).drop_last() =~= r.entries().take(i as int));
            known.insert(key, val);
            i = i + 1;
        }
        assert(r.entries().take(i as int) =~= r.entries());
    }
    let ghost mid = known@;
    let mut j: usize = 0;
    while j < interfaces.len()
        invariant
            j <= interfaces@.len(),
            forall|k: Seq<char>| #[trigger] known@.dom().contains(k) <==> (mid.dom().contains(k) || (k
                != "lo"@ && exists|q: int| 0 <= q < j && interfaces@[q].0@ == k)),
            forall|k: Seq<char>| #[trigger] known@.dom().contains(k) ==> known@[k]@ == if mid.dom().contains(k) {
                mid[k]@
            } else {
                infer_spec(lowercase(k))
            },
        decreases interfaces@.len() - j,
    {
        let name = &interfaces[j].0;
        let n = chars_of(name.as_str());
        if !eq_str(n.as_slice(), "lo") && known.get(name.as_str()).is_none() {
            let t = infer_transport(name.as_str());
            let key = string_of(n.as_slice());
            known.insert(key, string_of(chars_of(t).as_slice()));
        }
        proof {
            assert forall|k: Seq<char>| #[trigger] known@.dom().contains(k) <==> (mid.dom().contains(k) || (k
                != "lo"@ && exists|q: int| 0 <= q < j + 1 && interfaces@[q].0@ == k)) by {
                if k != "lo"@ && exists|q: int| 0 <= q < j + 1 && interfaces@[q].0@ == k {
                    if !(exists|q: int| 0 <= q < j && interfaces@[q].0@ == k) {
                        assert(interfaces@[j as int].0@ == k);
                    }
                }
            }
        }
        j = j + 1;
    }
}

/// The transport of `iface`: the known one, else the one its name suggests.
pub fn transport_for(known: &TextMap<String>, iface: &str) -> (r: String)
    ensures
        r@ == if known@.dom().contains(iface@) {
            known@[iface@]@
        } else {
            infer_spec(lowercase(iface@))
        },
{
    match known.get(iface) {
        Some(t) => string_of(chars_of(t.as_str()).as_slice()),
        None => string_of(chars_of(infer_transport(iface)).as_slice()),
    }
}

// ---------------------------------------------------------------------------
// Runs
// ---------------------------------------------------------------------------

/// The arguments that read `/proc/net/dev`.
pub open spec fn proc_net_dev_args() -> Seq<Seq<char>> {
    seq!["shell"@, "cat"@, "/proc/net/dev"@]
}

/// The arguments that read the transports.
pub open spec fn netstats_detail_args() -> Seq<Seq<char>> {
    seq!["shell"@, "dumpsys"@, "netstats"@, "detail"@]
}

/// The interfaces of a device, given how `adb -s <serial> shell cat
/// /proc/net/dev` ended: those its decoded stdout lists, or the error of the
/// run.
pub fn fetch_interfaces(serial: &str, outcome: Result<CommandOutput, IoFailure>) -> (r: Result<
    Vec<(String, u64, u64)>,
    AdbError,
>)
    ensures
        match succeeded(outcome) {
            Some(out) => r matches Ok(v) && v@.map_values(|e: (String, u64, u64)| entry_view(e))
                == proc_net_dev_spec(lossy_utf8(out.stdout@)),
            None => run_failed(serial_args(serial@, proc_net_dev_args()), outcome, r),
        },
{
    let args = ["shell", "cat", "/proc/net/dev"];
    assert(arg_views(args@) =~= proc_net_dev_args());
    match run_adb_for_serial(serial, &args, outcome) {
        Err(e) => Err(e),
        Ok(output) => {
            let text = utf8_lossy(output.stdout.as_slice());
            Ok(parse_proc_net_dev(text.as_str()))
        },
    }
}

/// The transports that `adb -s <serial> shell dumpsys netstats detail` gave:
/// `None` when the run failed, else `Some` of what
/// `checked_netstats_transports` reads from its decoded stdout.
pub fn fetch_transports(serial: &str, outcome: Result<CommandOutput, IoFailure>) -> (r: Option<
    Option<TextMap<String>>,
>)
    ensures
        match succeeded(outcome) {
            Some(out) => r matches Some(c) && match c {
                Some(m) => all_formattable(netstats_captures(lossy_utf8(out.stdout@), 0))
                    && label_views(m@) == transports_map(netstats_captures(lossy_utf8(out.stdout@), 0)),
                None => !all_formattable(netstats_captures(lossy_utf8(out.stdout@), 0)),
            },
            None => r is None,
        },
{
    let args = ["shell", "dumpsys", "netstats", "detail"];
    match run_adb_for_serial(serial, &args, outcome) {
        Err(_) => None,
        Ok(output) => {
            let text = utf8_lossy(output.stdout.as_slice());
            Some(checked_netstats_transports(text.as_str()))
        },
    }
}

} // verus!
