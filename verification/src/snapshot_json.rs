//! The compact JSON text of insight clusters (as `serde_json` writes it), used
//! to keep a snapshot within its size budget.

use vstd::prelude::*;

use crate::fingerprint::hex_char;
use crate::text::{chars_of, dec, push_dec};

verus! {

/// A cluster as the JSON text shows it: fingerprint, tag, level, count,
/// seconds since the first and the last line, and samples.
pub type ClusterJson = (Seq<char>, Seq<char>, char, nat, nat, nat, Seq<Seq<char>>);

/// The JSON escape of one character inside a string.
pub open spec fn escape_char(c: char) -> Seq<char> {
    let u = c as u32;
    if c == '"' {
        seq!['\\', '"']
    } else if c == '\\' {
        seq!['\\', '\\']
    } else if u == 8 {
        seq!['\\', 'b']
    } else if u == 9 {
        seq!['\\', 't']
    } else if u == 10 {
        seq!['\\', 'n']
    } else if u == 12 {
        seq!['\\', 'f']
    } else if u == 13 {
        seq!['\\', 'r']
    } else if u < 0x20 {
        seq!['\\', 'u', '0', '0', hex_char((u / 16) as nat), hex_char((u % 16) as nat)]
    } else {
        seq![c]
    }
}

/// The escaped characters of `s`.
pub open spec fn escaped(s: Seq<char>) -> Seq<char>
    decreases s.len(),
{
    if s.len() == 0 {
        seq![]
    } else {
        escaped(s.drop_last()) + escape_char(s.last())
    }
}

/// A JSON string literal holding `s`.
pub open spec fn json_str(s: Seq<char>) -> Seq<char> {
    seq!['"'] + escaped(s) + seq!['"']
}

/// The JSON strings of `ss` joined by commas.
pub open spec fn json_strs(ss: Seq<Seq<char>>) -> Seq<char>
    decreases ss.len(),
{
    if ss.len() == 0 {
        seq![]
    } else if ss.len() == 1 {
        json_str(ss[0])
    } else {
        json_strs(ss.drop_last()) + seq![','] + json_str(ss.last())
    }
}

/// The JSON object of a cluster, its fields in declaration order.
pub open spec fn cluster_json(c: ClusterJson) -> Seq<char> {
    "{\"fingerprint\":"@ + json_str(c.0) + ",\"tag\":"@ + json_str(c.1) + ",\"level\":"@ + json_str(
        seq![c.2],
    ) + ",\"count\":"@ + dec(c.3) + ",\"first\":"@ + dec(c.4) + ",\"last\":"@ + dec(c.5)
        + ",\"samples\":["@ + json_strs(c.6) + "]}"@
}

/// The cluster objects joined by commas.
pub open spec fn cluster_list_json(cs: Seq<ClusterJson>) -> Seq<char>
    decreases cs.len(),
{
    if cs.len() == 0 {
        seq![]
    } else if cs.len() == 1 {
        cluster_json(cs[0])
    } else {
        cluster_list_json(cs.drop_last()) + seq![','] + cluster_json(cs.last())
    }
}

/// The JSON text `{"clusters":[...]}` of the clusters.
pub open spec fn clusters_json(cs: Seq<ClusterJson>) -> Seq<char> {
    "{\"clusters\":["@ + cluster_list_json(cs) + "]}"@
}

/// Appends `s` to `out`.
pub fn push_text(out: &mut Vec<char>, s: &str)
    ensures
        final(out)@ == old(out)@ + s@,
{
    let c = chars_of(s);
    let mut i: usize = 0;
    let ghost base = out@;
    while i < c.len()
        invariant
            i <= c@.len(),
            out@ == base + c@.take(i as int),
        decreases c@.len() - i,
    {
        out.push(c[i]);
        i = i + 1;
        assert(out@ =~= base + c@.take(i as int));
    }
    assert(c@.take(i as int) =~= c@);
}

fn hex_digit_char(d: u32) -> (r: char)
    requires
        d < 16,
    ensures
        r == hex_char(d as nat),
{
    if d < 10 {
        ((d as u8) + 48) as char
    } else {
        ((d as u8) + 87) as char
    }
}

fn push_escaped_char(out: &mut Vec<char>, c: char)
    ensures
        final(out)@ == old(out)@ + escape_char(c),
{
    let u = c as u32;
    let ghost base = out@;
    if c == '"' {
        out.push('\\');
        out.push('"');
    } else if c == '\\' {
        out.push('\\');
        out.push('\\');
    } else if u == 8 {
        out.push('\\');
        out.push('b');
    } else if u == 9 {
        out.push('\\');
        out.push('t');
    } else if u == 10 {
        out.push('\\');
        out.push('n');
    } else if u == 12 {
        out.push('\\');
        out.push('f');
    } else if u == 13 {
        out.push('\\');
        out.push('r');
    } else if u < 0x20 {
        out.push('\\');
        out.push('u');
        out.push('0');
        out.push('0');
        out.push(hex_digit_char(u / 16));
        out.push(hex_digit_char(u % 16));
    } else {
        out.push(c);
    }
    assert(out@ =~= base + escape_char(c));
}

/// Appends the JSON string literal of `s` to `out`.
pub fn push_json_str(out: &mut Vec<char>, s: &[char])
    ensures
        final(out)@ == old(out)@ + json_str(s@),
{
    let ghost base = out@;
    out.push('"');
    let mut i: usize = 0;
    assert(s@.take(0) =~= Seq::<char>::empty());
    while i < s.len()
        invariant
            i <= s@.len(),
            out@ == base + seq!['"'] + escaped(s@.take(i as int)),
        decreases s@.len() - i,
    {
        assert(s@.take(i + 1).drop_last() =~= s@.take(i as int));
        push_escaped_char(out, s[i]);
        i = i + 1;
        assert(out@ =~= base + seq!['"'] + escaped(s@.take(i as int)));
    }
    assert(s@.take(i as int) =~= s@);
    out.push('"');
    assert(out@ =~= base + json_str(s@));
}

/// Appends the JSON text of one cluster, given its parts.
pub fn push_cluster_json(
    out: &mut Vec<char>,
    fingerprint: &str,
    tag: &str,
    level: char,
    count: u32,
    first: u64,
    last: u64,
    samples: &Vec<String>,
)
    ensures
        final(out)@ == old(out)@ + cluster_json(
            (
                fingerprint@,
                tag@,
                level,
                count as nat,
                first as nat,
                last as nat,
                samples@.map_values(|s: String| s@),
            ),
        ),
{
    let ghost base = out@;
    push_text(out, "{\"fingerprint\":");
    push_json_str(out, chars_of(fingerprint).as_slice());
    push_text(out, ",\"tag\":");
    push_json_str(out, chars_of(tag).as_slice());
    push_text(out, ",\"level\":");
    let lv = [level];
    assert(lv@ =~= seq![level]);
    push_json_str(out, &lv);
    push_text(out, ",\"count\":");
    push_dec(out, count as u64);
    push_text(out, ",\"first\":");
    push_dec(out, first);
    push_text(out, ",\"last\":");
    push_dec(out, last);
    push_text(out, ",\"samples\":[");
    let ghost views = samples@.map_values(|s: String| s@);
    let ghost mid = out@;
    let mut i: usize = 0;
    assert(views.take(0) =~= Seq::<Seq<char>>::empty());
    while i < samples.len()
        invariant
            i <= samples@.len(),
            views == samples@.map_values(|s: String| s@),
            out@ == mid + json_strs(views.take(i as int)),
        decreases samples@.len() - i,
    {
        assert(views.take(i + 1).drop_last() =~= views.take(i as int));
        assert(views[i as int] == samples@[i as int]@);
        if i > 0 {
            out.push(',');
        }
        push_json_str(out, chars_of(samples[i].as_str()).as_slice());
        i = i + 1;
        assert(out@ =~= mid + json_strs(views.take(i as int)));
    }
    assert(views.take(i as int) =~= views);
    push_text(out, "]}");
    assert(out@ =~= base + cluster_json(
        (fingerprint@, tag@, level, count as nat, first as nat, last as nat, views),
    ));
}

} // verus!
