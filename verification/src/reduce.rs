//! The reduction of recent log lines into a snapshot: error clusters of the
//! last three minutes, with counts for it and the window before.

use vstd::prelude::*;

use crate::app_storage::{lemma_lex_total, lemma_lex_trans, lex_le, lex_le_exec};
use crate::fingerprint::{
    device_label_spec, fingerprint_spec, generate_device_label, generate_fingerprint, redact,
    replaced, secrets,
};
use crate::snapshot_json::{clusters_json, cluster_list_json, push_cluster_json, push_text, ClusterJson};
use crate::logcat::push_all;
use crate::text::{chars_of, contains, contains_exec, string_of};

verus! {

broadcast use vstd::seq_lib::group_to_multiset_ensures, vstd::multiset::group_multiset_axioms;

/// The clusters' time window, in nanoseconds (three minutes).
pub const TIME_WINDOW_NANOS: u64 = 180_000_000_000;

/// The window before it, in nanoseconds.
pub const PREV_TIME_WINDOW_NANOS: u64 = 180_000_000_000;

/// The time window in seconds, as the snapshot reports it.
pub const TIME_WINDOW_SECS: u64 = 180;

/// How many clusters a snapshot keeps at most.
pub const MAX_CLUSTERS: usize = 8;

/// How many redacted samples a cluster keeps at most.
pub const MAX_SAMPLES: usize = 2;

/// The size budget of the clusters' JSON text, in bytes.
pub const MAX_JSON_BYTES: usize = 6144;

/// Nanoseconds per second.
pub const NANOS_PER_SEC: u64 = 1_000_000_000;

/// Allowed logcat levels.
#[derive(Debug, Clone, Copy, PartialEq, Eq)]
pub enum LevelMask {
    Error,
}

impl LevelMask {
    /// Whether the mask admits `level`: Error admits `E` and `F`.
    pub open spec fn admits(self, level: char) -> bool {
        match self {
            LevelMask::Error => level == 'E' || level == 'F',
        }
    }

    /// Whether the mask admits `level`.
    pub fn contains(self, level: char) -> (r: bool)
        ensures
            r == self.admits(level),
    {
        match self {
            LevelMask::Error => level == 'E' || level == 'F',
        }
    }

    /// The level letters that the mask admits, as labels.
    pub fn labels(self) -> (r: Vec<&'static str>)
        ensures
            r@.map_values(|s: &str| s@) == match self {
                LevelMask::Error => seq!["E"@, "F"@],
            },
    {
        match self {
            LevelMask::Error => {
                let mut v: Vec<&'static str> = Vec::new();
                v.push("E");
                v.push("F");
                assert(v@.map_values(|s: &str| s@) =~= seq!["E"@, "F"@]);
                v
            },
        }
    }
}

/// One log line input to the reducer. `received_at` is when it arrived, in
/// nanoseconds on a monotonic clock.
#[derive(Debug, Clone)]
pub struct InsightLine {
    pub received_at: u64,
    pub level: char,
    pub tag: String,
    pub message: String,
}

/// One error shape in the current time window: fingerprint, counts, and redacted samples.
#[derive(Debug, Clone, PartialEq, Eq)]
pub struct InsightCluster {
    pub fingerprint: String,
    pub tag: String,
    pub level: char,
    pub count: u32,
    pub first_secs_ago: u64,
    pub last_secs_ago: u64,
    pub samples: Vec<String>,
}

/// Matching line counts for the current time window and the time window before it.
#[derive(Debug, Clone, PartialEq, Eq)]
pub struct SnapshotDeltas {
    pub count_now: u32,
    pub count_prev: u32,
}

/// Reduced digest of recent log lines for one device: clusters, level mask, and deltas.
#[derive(Debug, Clone)]
pub struct InsightSnapshot {
    pub device_label: String,
    pub device_model: String,
    pub time_window_sec: u64,
    pub levels: Vec<&'static str>,
    pub clusters: Vec<InsightCluster>,
    pub deltas: SnapshotDeltas,
    pub metrics: Option<serde_json::Value>,
}


// ---------------------------------------------------------------------------
// Clustering
// ---------------------------------------------------------------------------

/// A cluster as plain values.
pub open spec fn cluster_view(c: InsightCluster) -> ClusterJson {
    (
        c.fingerprint@,
        c.tag@,
        c.level,
        c.count as nat,
        c.first_secs_ago as nat,
        c.last_secs_ago as nat,
        c.samples@.map_values(|s: String| s@),
    )
}

/// The views of clusters.
pub open spec fn cluster_views(cs: Seq<InsightCluster>) -> Seq<ClusterJson> {
    cs.map_values(|c: InsightCluster| cluster_view(c))
}

/// Whole seconds from `t` to `now` (zero when `t` is later).
pub open spec fn age_secs(now: u64, t: u64) -> nat {
    if t <= now {
        ((now - t) / (NANOS_PER_SEC as int)) as nat
    } else {
        0
    }
}

/// A cluster after one more line of age `age`: counted, its ages widened,
/// and the line's redacted message kept while there are fewer than two.
pub open spec fn absorb(c: ClusterJson, message: Seq<char>, age: nat) -> ClusterJson {
    (
        c.0,
        c.1,
        c.2,
        c.3 + 1,
        if c.4 >= age {
            c.4
        } else {
            age
        },
        if c.5 <= age {
            c.5
        } else {
            age
        },
        if c.6.len() < MAX_SAMPLES {
            c.6.push(replaced(message, 0, secrets()))
        } else {
            c.6
        },
    )
}

/// Index of the cluster with fingerprint `fp`, or -1.
pub open spec fn cluster_index(cs: Seq<ClusterJson>, fp: Seq<char>) -> int
    decreases cs.len(),
{
    if cs.len() == 0 {
        -1
    } else if cs.last().0 == fp {
        cs.len() - 1
    } else {
        cluster_index(cs.drop_last(), fp)
    }
}

/// The clusters after a line of the current window: its cluster (by
/// fingerprint) absorbs it, a new one (with the line's tag and level) first
/// when there is none.
pub open spec fn upsert(cs: Seq<ClusterJson>, l: InsightLine, age: nat) -> Seq<ClusterJson> {
    let fp = fingerprint_spec(l.tag@, l.message@);
    let i = cluster_index(cs, fp);
    if i < 0 {
        cs.push(absorb((fp, l.tag@, l.level, 0, age, age, seq![]), l.message@, age))
    } else {
        cs.update(i, absorb(cs[i], l.message@, age))
    }
}

/// The start of the current window, if the clock reaches back that far.
pub open spec fn now_cut(now: u64) -> Option<int> {
    if now >= TIME_WINDOW_NANOS {
        Some(now - TIME_WINDOW_NANOS)
    } else {
        None
    }
}

/// The start of the window before it, if the clock reaches back that far.
pub open spec fn prev_cut(now: u64) -> Option<int> {
    if now >= TIME_WINDOW_NANOS + PREV_TIME_WINDOW_NANOS {
        Some(now - TIME_WINDOW_NANOS - PREV_TIME_WINDOW_NANOS)
    } else {
        None
    }
}

/// The clusters and the counts of the current and previous windows after one
/// more line: lines the mask does not admit, and lines older than both
/// windows, are skipped.
pub open spec fn reduce_step(st: (Seq<ClusterJson>, nat, nat), l: InsightLine, mask: LevelMask, now: u64) -> (
    Seq<ClusterJson>,
    nat,
    nat,
) {
    if !mask.admits(l.level) {
        st
    } else if prev_cut(now) is Some && (l.received_at as int) < prev_cut(now).unwrap() {
        st
    } else if now_cut(now) is None || (l.received_at as int) >= now_cut(now).unwrap() {
        (upsert(st.0, l, age_secs(now, l.received_at)), st.1 + 1, st.2)
    } else {
        (st.0, st.1, st.2 + 1)
    }
}

/// The clusters (in order of their first line) and counts after the lines.
pub open spec fn reduce_lines(ls: Seq<InsightLine>, mask: LevelMask, now: u64) -> (
    Seq<ClusterJson>,
    nat,
    nat,
)
    decreases ls.len(),
{
    if ls.len() == 0 {
        (seq![], 0, 0)
    } else {
        reduce_step(reduce_lines(ls.drop_last(), mask, now), ls.last(), mask, now)
    }
}

/// The Error mask admits exactly the error and fatal levels, `E` and `F`.
pub proof fn error_mask_admits_errors(level: char)
    ensures
        LevelMask::Error.admits(level) == (level == 'E' || level == 'F'),
{
}

/// The lines that the mask admits and that were received in the current
/// window, the last `TIME_WINDOW_NANOS` before `now`.
pub open spec fn admitted_in_current(mask: LevelMask, now: u64) -> spec_fn(InsightLine) -> bool {
    |l: InsightLine|
        mask.admits(l.level) && (now < TIME_WINDOW_NANOS || l.received_at >= now - TIME_WINDOW_NANOS)
}

/// The lines that the mask admits and that were received in the window
/// before the current one, the `PREV_TIME_WINDOW_NANOS` before it.
pub open spec fn admitted_in_previous(mask: LevelMask, now: u64) -> spec_fn(InsightLine) -> bool {
    |l: InsightLine|
        mask.admits(l.level) && now >= TIME_WINDOW_NANOS && l.received_at < now - TIME_WINDOW_NANOS && (now
            < TIME_WINDOW_NANOS + PREV_TIME_WINDOW_NANOS || l.received_at >= now - TIME_WINDOW_NANOS
            - PREV_TIME_WINDOW_NANOS)
}

/// The counts that `reduce` gives are the numbers of lines that the mask
/// admits in each window: a line of another level counts in neither, however
/// recent it is.
pub proof fn window_counts_are_admitted_lines(ls: Seq<InsightLine>, mask: LevelMask, now: u64)
    ensures
        reduce_lines(ls, mask, now).1 == ls.filter(admitted_in_current(mask, now)).len(),
        reduce_lines(ls, mask, now).2 == ls.filter(admitted_in_previous(mask, now)).len(),
    decreases ls.len(),
{
    reveal(Seq::filter);
    if ls.len() > 0 {
        window_counts_are_admitted_lines(ls.drop_last(), mask, now);
    }
}

/// The admitted lines of the current window whose fingerprint is `fp`.
pub open spec fn admitted_with_fingerprint(mask: LevelMask, now: u64, fp: Seq<char>) -> spec_fn(InsightLine) -> bool {
    |l: InsightLine| admitted_in_current(mask, now)(l) && fingerprint_spec(l.tag@, l.message@) == fp
}

proof fn lemma_filter_step(ls: Seq<InsightLine>, pred: spec_fn(InsightLine) -> bool)
    requires
        ls.len() > 0,
    ensures
        ls.filter(pred).len() == ls.drop_last().filter(pred).len() + if pred(ls.last()) {
            1int
        } else {
            0int
        },
{
    reveal(Seq::filter);
}

proof fn lemma_filter_none(ls: Seq<InsightLine>, pred: spec_fn(InsightLine) -> bool)
    requires
        forall|k: int| 0 <= k < ls.len() ==> !pred(#[trigger] ls[k]),
    ensures
        ls.filter(pred).len() == 0,
    decreases ls.len(),
{
    reveal(Seq::filter);
    if ls.len() > 0 {
        assert forall|k: int| 0 <= k < ls.drop_last().len() implies !pred(#[trigger] ls.drop_last()[k]) by {
            assert(ls.drop_last()[k] == ls[k]);
        }
        lemma_filter_none(ls.drop_last(), pred);
        assert(!pred(ls[ls.len() - 1]));
    }
}

proof fn lemma_cluster_index_absent(cs: Seq<ClusterJson>, fp: Seq<char>)
    ensures
        cluster_index(cs, fp) < 0 ==> forall|i: int| 0 <= i < cs.len() ==> (#[trigger] cs[i]).0 != fp,
    decreases cs.len(),
{
    if cs.len() > 0 {
        lemma_cluster_index_absent(cs.drop_last(), fp);
        if cluster_index(cs, fp) < 0 {
            assert forall|i: int| 0 <= i < cs.len() implies (#[trigger] cs[i]).0 != fp by {
                if i < cs.len() - 1 {
                    assert(cs[i] == cs.drop_last()[i]);
                }
            }
        }
    }
}

/// The clusters that `reduce` gives group the admitted lines of the current
/// window by fingerprint: no two clusters share a fingerprint, each
/// cluster's count is the number of those lines with its fingerprint, and
/// every such line has a cluster.
pub proof fn clusters_group_by_fingerprint(ls: Seq<InsightLine>, mask: LevelMask, now: u64)
    ensures
        ({
            let cs = reduce_lines(ls, mask, now).0;
            &&& forall|i: int, j: int| 0 <= i < j < cs.len() ==> (#[trigger] cs[i]).0 != (#[trigger] cs[j]).0
            &&& forall|i: int| 0 <= i < cs.len() ==> (#[trigger] cs[i]).3 == ls.filter(
                admitted_with_fingerprint(mask, now, cs[i].0),
            ).len()
            &&& forall|k: int| 0 <= k < ls.len() && #[trigger] admitted_in_current(mask, now)(ls[k]) ==> exists|i: int|
                0 <= i < cs.len() && (#[trigger] cs[i]).0 == fingerprint_spec(ls[k].tag@, ls[k].message@)
        }),
    decreases ls.len(),
{
    if ls.len() > 0 {
        let prev = ls.drop_last();
        clusters_group_by_fingerprint(prev, mask, now);
        let pcs = reduce_lines(prev, mask, now).0;
        let cs = reduce_lines(ls, mask, now).0;
        let l = ls.last();
        let f = fingerprint_spec(l.tag@, l.message@);
        assert forall|k: int| 0 <= k < prev.len() implies #[trigger] prev[k] == ls[k] by {}
        if !admitted_in_current(mask, now)(l) {
            assert(cs == pcs);
            assert forall|i: int| 0 <= i < cs.len() implies (#[trigger] cs[i]).3 == ls.filter(
                admitted_with_fingerprint(mask, now, cs[i].0),
            ).len() by {
                lemma_filter_step(ls, admitted_with_fingerprint(mask, now, cs[i].0));
            }
            assert forall|k: int| 0 <= k < ls.len() && #[trigger] admitted_in_current(mask, now)(ls[k]) implies exists|i: int|
                0 <= i < cs.len() && (#[trigger] cs[i]).0 == fingerprint_spec(ls[k].tag@, ls[k].message@) by {
                assert(k < prev.len());
                assert(admitted_in_current(mask, now)(prev[k]));
            }
        } else {
            lemma_cluster_index(pcs, f);
            lemma_cluster_index_absent(pcs, f);
            let idx = cluster_index(pcs, f);
            if idx >= 0 {
                assert(cs == pcs.update(idx, absorb(pcs[idx], l.message@, age_secs(now, l.received_at))));
                assert forall|i: int| 0 <= i < cs.len() implies (#[trigger] cs[i]).3 == ls.filter(
                    admitted_with_fingerprint(mask, now, cs[i].0),
                ).len() by {
                    lemma_filter_step(ls, admitted_with_fingerprint(mask, now, cs[i].0));
                    if i != idx {
                        assert(cs[i] == pcs[i]);
                        assert(pcs[i].0 != pcs[idx].0);
                    }
                }
                assert forall|i: int, j: int| 0 <= i < j < cs.len() implies (#[trigger] cs[i]).0 != (#[trigger] cs[j]).0 by {
                    assert(cs[i].0 == pcs[i].0);
                    assert(cs[j].0 == pcs[j].0);
                }
                assert forall|k: int| 0 <= k < ls.len() && #[trigger] admitted_in_current(mask, now)(ls[k]) implies exists|i: int|
                    0 <= i < cs.len() && (#[trigger] cs[i]).0 == fingerprint_spec(ls[k].tag@, ls[k].message@) by {
                    if k < prev.len() {
                        assert(admitted_in_current(mask, now)(prev[k]));
                        let i = choose|i: int| 0 <= i < pcs.len() && (#[trigger] pcs[i]).0 == fingerprint_spec(prev[k].tag@, prev[k].message@);
                        assert(cs[i].0 == pcs[i].0);
                    } else {
                        assert(cs[idx].0 == f);
                    }
                }
            } else {
                let age = age_secs(now, l.received_at);
                let fresh = absorb((f, l.tag@, l.level, 0, age, age, seq![]), l.message@, age);
                assert(cs == pcs.push(fresh));
                assert forall|i: int| 0 <= i < cs.len() implies (#[trigger] cs[i]).3 == ls.filter(
                    admitted_with_fingerprint(mask, now, cs[i].0),
                ).len() by {
                    lemma_filter_step(ls, admitted_with_fingerprint(mask, now, cs[i].0));
                    if i < pcs.len() {
                        assert(cs[i] == pcs[i]);
                    } else {
                        assert(cs[i] == fresh);
                        assert forall|k: int| 0 <= k < prev.len() implies !admitted_with_fingerprint(mask, now, f)(
                            #[trigger] prev[k],
                        ) by {
                            if admitted_with_fingerprint(mask, now, f)(prev[k]) {
                                assert(admitted_in_current(mask, now)(prev[k]));
                                let j = choose|j: int| 0 <= j < pcs.len() && (#[trigger] pcs[j]).0 == fingerprint_spec(prev[k].tag@, prev[k].message@);
                                assert(pcs[j].0 != f);
                            }
                        }
                        lemma_filter_none(prev, admitted_with_fingerprint(mask, now, f));
                    }
                }
                assert forall|i: int, j: int| 0 <= i < j < cs.len() implies (#[trigger] cs[i]).0 != (#[trigger] cs[j]).0 by {
                    assert(cs[i] == pcs[i]);
                    if j < pcs.len() {
                        assert(cs[j] == pcs[j]);
                    } else {
                        assert(cs[j] == fresh);
                    }
                }
                assert forall|k: int| 0 <= k < ls.len() && #[trigger] admitted_in_current(mask, now)(ls[k]) implies exists|i: int|
                    0 <= i < cs.len() && (#[trigger] cs[i]).0 == fingerprint_spec(ls[k].tag@, ls[k].message@) by {
                    if k < prev.len() {
                        assert(admitted_in_current(mask, now)(prev[k]));
                        let i = choose|i: int| 0 <= i < pcs.len() && (#[trigger] pcs[i]).0 == fingerprint_spec(prev[k].tag@, prev[k].message@);
                        assert(cs[i] == pcs[i]);
                    } else {
                        assert(cs[pcs.len() as int] == fresh);
                    }
                }
            }
        }
    }
}

proof fn lemma_cluster_index(cs: Seq<ClusterJson>, fp: Seq<char>)
    ensures
        -1 <= cluster_index(cs, fp) < cs.len(),
        cluster_index(cs, fp) >= 0 ==> cs[cluster_index(cs, fp)].0 == fp,
    decreases cs.len(),
{
    if cs.len() > 0 {
        lemma_cluster_index(cs.drop_last(), fp);
    }
}

proof fn lemma_reduce_counts(ls: Seq<InsightLine>, mask: LevelMask, now: u64)
    ensures
        reduce_lines(ls, mask, now).1 + reduce_lines(ls, mask, now).2 <= ls.len(),
        forall|i: int| 0 <= i < reduce_lines(ls, mask, now).0.len() ==> (#[trigger] reduce_lines(ls, mask, now).0[i]).3
            <= reduce_lines(ls, mask, now).1,
    decreases ls.len(),
{
    if ls.len() > 0 {
        let prev = reduce_lines(ls.drop_last(), mask, now);
        lemma_reduce_counts(ls.drop_last(), mask, now);
        let l = ls.last();
        let cur = reduce_lines(ls, mask, now);
        if mask.admits(l.level) && !(prev_cut(now) is Some && (l.received_at as int) < prev_cut(now).unwrap())
            && (now_cut(now) is None || (l.received_at as int) >= now_cut(now).unwrap()) {
            let fp = fingerprint_spec(l.tag@, l.message@);
            lemma_cluster_index(prev.0, fp);
            let k = cluster_index(prev.0, fp);
            assert forall|i: int| 0 <= i < cur.0.len() implies (#[trigger] cur.0[i]).3 <= cur.1 by {
                if k < 0 {
                    if i < prev.0.len() {
                        assert(cur.0[i] == prev.0[i]);
                    }
                } else if i != k {
                    assert(cur.0[i] == prev.0[i]);
                }
            }
        }
    }
}

/// At most `k` clusters are kept.
proof fn lemma_budget_le(s: Seq<ClusterJson>, k: int)
    requires
        0 <= k,
    ensures
        0 <= budget_count(s, k) <= k,
    decreases k,
{
    if k > 1 && vstd::utf8::encode_utf8(clusters_json(s.take(k))).len() > MAX_JSON_BYTES {
        lemma_budget_le(s, k - 1);
    }
}

/// The clusters kept within the budget fit it as JSON, unless only one
/// cluster (or none) is left; and they are as many as fit.
pub proof fn budget_is_met(s: Seq<ClusterJson>, k: int)
    requires
        0 <= k,
    ensures
        budget_count(s, k) <= 1 || vstd::utf8::encode_utf8(clusters_json(s.take(budget_count(s, k)))).len()
            <= MAX_JSON_BYTES,
        forall|j: int|
            budget_count(s, k) < j <= k ==> vstd::utf8::encode_utf8(#[trigger] clusters_json(s.take(j))).len()
                > MAX_JSON_BYTES,
    decreases k,
{
    if k > 1 && vstd::utf8::encode_utf8(clusters_json(s.take(k))).len() > MAX_JSON_BYTES {
        budget_is_met(s, k - 1);
    }
}

fn age_secs_exec(now: u64, t: u64) -> (r: u64)
    ensures
        r as nat == age_secs(now, t),
{
    if t <= now {
        (now - t) / NANOS_PER_SEC
    } else {
        0
    }
}

fn cluster_index_exec(cs: &Vec<InsightCluster>, fp: &String) -> (r: Option<usize>)
    ensures
        match r {
            Some(i) => i as int == cluster_index(cluster_views(cs@), fp@) && i < cs@.len(),
            None => cluster_index(cluster_views(cs@), fp@) == -1,
        },
{
    let f = chars_of(fp.as_str());
    let ghost vs = cluster_views(cs@);
    let mut i = cs.len();
    assert(vs.take(vs.len() as int) =~= vs);
    while i > 0
        invariant
            i <= cs@.len(),
            vs == cluster_views(cs@),
            f@ == fp@,
            cluster_index(vs, fp@) == cluster_index(vs.take(i as int), fp@),
        decreases i,
    {
        let c = chars_of(cs[i - 1].fingerprint.as_str());
        assert(vs.take(i as int).drop_last() =~= vs.take(i - 1));
        assert(vs.take(i as int).last() == vs[i - 1]);
        if crate::text::same_chars(c.as_slice(), f.as_slice()) {
            return Some(i - 1);
        }
        i = i - 1;
    }
    None
}

fn absorb_exec(c: &mut InsightCluster, message: &str, age: u64)
    requires
        old(c).count < u32::MAX,
    ensures
        cluster_view(*final(c)) == absorb(cluster_view(*old(c)), message@, age as nat),
{
    c.count = c.count + 1;
    if c.first_secs_ago < age {
        c.first_secs_ago = age;
    }
    if c.last_secs_ago > age {
        c.last_secs_ago = age;
    }
    if c.samples.len() < MAX_SAMPLES {
        let ghost before = c.samples@;
        c.samples.push(redact(message));
        assert(c.samples@.map_values(|s: String| s@) =~= before.map_values(|s: String| s@).push(
            replaced(message@, 0, secrets()),
        ));
    }
}

/// The clusters and counts of the lines, as `reduce_lines` says.
pub fn reduce(lines: &Vec<InsightLine>, mask: LevelMask, now: u64) -> (r: (Vec<InsightCluster>, u32, u32))
    requires
        lines@.len() <= u32::MAX,
    ensures
        (cluster_views(r.0@), r.1 as nat, r.2 as nat) == reduce_lines(lines@, mask, now),
{
    let mut clusters: Vec<InsightCluster> = Vec::new();
    let mut count_now: u32 = 0;
    let mut count_prev: u32 = 0;
    let mut i: usize = 0;
    assert(lines@.take(0) =~= Seq::<InsightLine>::empty());
    assert(cluster_views(clusters@) =~= Seq::<ClusterJson>::empty());
    while i < lines.len()
        invariant
            i <= lines@.len() <= u32::MAX,
            (cluster_views(clusters@), count_now as nat, count_prev as nat) == reduce_lines(
                lines@.take(i as int),
                mask,
                now,
            ),
        decreases lines@.len() - i,
    {
        proof {
            lemma_reduce_counts(lines@.take(i as int), mask, now);
        }
        assert(lines@.take(i + 1).drop_last() =~= lines@.take(i as int));
        assert(lines@.take(i + 1).last() == lines@[i as int]);
        let line = &lines[i];
        if !mask.contains(line.level) {
            i = i + 1;
            continue;
        }
        let too_old = now >= TIME_WINDOW_NANOS + PREV_TIME_WINDOW_NANOS && line.received_at < now
            - TIME_WINDOW_NANOS - PREV_TIME_WINDOW_NANOS;
        if too_old {
            i = i + 1;
            continue;
        }
        let in_now = now < TIME_WINDOW_NANOS || line.received_at >= now - TIME_WINDOW_NANOS;
        if in_now {
            let fp = generate_fingerprint(line.tag.as_str(), line.message.as_str());
            let age = age_secs_exec(now, line.received_at);
            let ghost before = cluster_views(clusters@);
            match cluster_index_exec(&clusters, &fp) {
                Some(k) => {
                    assert(before[k as int] == reduce_lines(lines@.take(i as int), mask, now).0[k as int]);
                    assert(before[k as int].3 <= count_now);
                    let mut c = clusters.remove(k);
                    absorb_exec(&mut c, line.message.as_str(), age);
                    let ghost cv = cluster_view(c);
                    clusters.insert(k, c);
                    assert(cluster_views(clusters@) =~= before.update(k as int, cv));
                },
                None => {
                    let mut c = InsightCluster {
                        fingerprint: fp,
                        tag: string_of(chars_of(line.tag.as_str()).as_slice()),
                        level: line.level,
                        count: 0,
                        first_secs_ago: age,
                        last_secs_ago: age,
                        samples: Vec::new(),
                    };
                    assert(c.samples@.map_values(|s: String| s@) =~= Seq::<Seq<char>>::empty());
                    absorb_exec(&mut c, line.message.as_str(), age);
                    let ghost cv = cluster_view(c);
                    clusters.push(c);
                    assert(cluster_views(clusters@) =~= before.push(cv));
                },
            }
            count_now = count_now + 1;
        } else {
            count_prev = count_prev + 1;
        }
        i = i + 1;
    }
    assert(lines@.take(i as int) =~= lines@);
    (clusters, count_now, count_prev)
}

// ---------------------------------------------------------------------------
// Ordering, and the size budget
// ---------------------------------------------------------------------------

/// `a` comes before or with `b`: more lines first, then by tag.
pub open spec fn rank_le(a: ClusterJson, b: ClusterJson) -> bool {
    a.3 > b.3 || (a.3 == b.3 && lex_le(a.1, b.1))
}

/// The clusters are in `rank_le` order.
pub open spec fn ranked(s: Seq<ClusterJson>) -> bool {
    forall|i: int, j: int| 0 <= i < j < s.len() ==> rank_le(#[trigger] s[i], #[trigger] s[j])
}

proof fn lemma_rank_total(a: ClusterJson, b: ClusterJson)
    ensures
        rank_le(a, b) || rank_le(b, a),
{
    lemma_lex_total(a.1, b.1);
}

proof fn lemma_rank_trans(a: ClusterJson, b: ClusterJson, c: ClusterJson)
    requires
        rank_le(a, b),
        rank_le(b, c),
    ensures
        rank_le(a, c),
{
    if a.3 == b.3 && b.3 == c.3 {
        lemma_lex_trans(a.1, b.1, c.1);
    }
}

fn rank_le_exec(a: &InsightCluster, b: &InsightCluster) -> (r: bool)
    ensures
        r == rank_le(cluster_view(*a), cluster_view(*b)),
{
    if a.count != b.count {
        a.count > b.count
    } else {
        let at = chars_of(a.tag.as_str());
        let bt = chars_of(b.tag.as_str());
        lex_le_exec(at.as_slice(), bt.as_slice())
    }
}

/// Orders the clusters by `rank_le` (most lines first, then by tag), keeping
/// them all.
pub fn rank_clusters(clusters: Vec<InsightCluster>) -> (r: Vec<InsightCluster>)
    ensures
        ranked(cluster_views(r@)),
        r@.to_multiset() == clusters@.to_multiset(),
{
    let mut out: Vec<InsightCluster> = Vec::new();
    let mut rest = clusters;
    let ghost all = rest@;
    assert(out@.to_multiset() == vstd::multiset::Multiset::<InsightCluster>::empty());
    assert(out@.to_multiset().add(rest@.to_multiset()) =~= all.to_multiset());
    while rest.len() > 0
        invariant
            ranked(cluster_views(out@)),
            out@.to_multiset().add(rest@.to_multiset()) == all.to_multiset(),
        decreases rest@.len(),
    {
        let ghost before_rest = rest@;
        let x = rest.pop().unwrap();
        proof {
            assert(before_rest =~= rest@.push(x));
            vstd::seq_lib::to_multiset_build(rest@, x);
        }
        let ghost old_views = cluster_views(out@);
        let ghost old_out = out@;
        let mut pos: usize = 0;
        while pos < out.len() && rank_le_exec(&out[pos], &x)
            invariant
                pos <= out@.len(),
                old_views == cluster_views(out@),
                forall|k: int| 0 <= k < pos ==> rank_le(#[trigger] old_views[k], cluster_view(x)),
            decreases out@.len() - pos,
        {
            pos = pos + 1;
        }
        proof {
            if pos < out@.len() {
                lemma_rank_total(old_views[pos as int], cluster_view(x));
            }
        }
        out.insert(pos, x);
        proof {
            let nv = cluster_views(out@);
            let xv = cluster_view(x);
            assert(nv =~= old_views.insert(pos as int, xv));
            assert forall|a: int, b: int| 0 <= a < b < nv.len() implies rank_le(#[trigger] nv[a], #[trigger] nv[b]) by {
                if b < pos {
                } else if b == pos {
                } else if a < pos {
                    lemma_rank_trans(old_views[a], xv, old_views[pos as int]);
                    if b - 1 > pos {
                        lemma_rank_trans(old_views[a], old_views[pos as int], old_views[b - 1]);
                    }
                } else if a == pos {
                    if b - 1 > pos {
                        lemma_rank_trans(xv, old_views[pos as int], old_views[b - 1]);
                    }
                } else {
                }
            }
            vstd::seq_lib::to_multiset_insert(old_out, pos as int, x);
        }
    }
    assert(rest@.to_multiset() == vstd::multiset::Multiset::<InsightCluster>::empty());
    assert(out@.to_multiset() =~= all.to_multiset());
    out
}

/// The number of clusters kept within the JSON budget: from `k`, one fewer
/// while more than one is left and their JSON text is over the budget.
pub open spec fn budget_count(s: Seq<ClusterJson>, k: int) -> int
    decreases k,
{
    if k > 1 && vstd::utf8::encode_utf8(clusters_json(s.take(k))).len() > MAX_JSON_BYTES {
        budget_count(s, k - 1)
    } else {
        k
    }
}

/// The byte length of the JSON text of the clusters.
pub fn clusters_json_len(clusters: &Vec<InsightCluster>) -> (r: usize)
    ensures
        r == vstd::utf8::encode_utf8(clusters_json(cluster_views(clusters@))).len(),
{
    let ghost vs = cluster_views(clusters@);
    let mut out: Vec<char> = Vec::new();
    push_text(&mut out, "{\"clusters\":[");
    let ghost head = out@;
    let mut i: usize = 0;
    assert(vs.take(0) =~= Seq::<ClusterJson>::empty());
    while i < clusters.len()
        invariant
            i <= clusters@.len(),
            vs == cluster_views(clusters@),
            out@ == head + cluster_list_json(vs.take(i as int)),
        decreases clusters@.len() - i,
    {
        assert(vs.take(i + 1).drop_last() =~= vs.take(i as int));
        assert(vs[i as int] == cluster_view(clusters@[i as int]));
        if i > 0 {
            out.push(',');
        }
        let c = &clusters[i];
        push_cluster_json(
            &mut out,
            c.fingerprint.as_str(),
            c.tag.as_str(),
            c.level,
            c.count,
            c.first_secs_ago,
            c.last_secs_ago,
            &c.samples,
        );
        i = i + 1;
        assert(out@ =~= head + cluster_list_json(vs.take(i as int)));
    }
    assert(vs.take(i as int) =~= vs);
    push_text(&mut out, "]}");
    assert(out@ =~= clusters_json(vs));
    crate::text::utf8_byte_len(out.as_slice())
}

/// Drops clusters from the end while more than one is left and the JSON text
/// of the clusters is over `MAX_JSON_BYTES`.
pub fn trim_to_json_budget(clusters: &mut Vec<InsightCluster>)
    ensures
        final(clusters)@ == old(clusters)@.take(budget_count(cluster_views(old(clusters)@), old(clusters)@.len() as int)),
{
    let ghost all = clusters@;
    let ghost vs = cluster_views(all);
    assert(all.take(all.len() as int) =~= all);
    while clusters.len() > 1
        invariant
            vs == cluster_views(all),
            all == old(clusters)@,
            clusters@.len() <= all.len(),
            clusters@ == all.take(clusters@.len() as int),
            budget_count(vs, all.len() as int) == budget_count(vs, clusters@.len() as int),
        decreases clusters@.len(),
    {
        let n = clusters_json_len(clusters);
        assert(cluster_views(clusters@) =~= vs.take(clusters@.len() as int));
        if n <= MAX_JSON_BYTES {
            assert(budget_count(vs, clusters@.len() as int) == clusters@.len());
            assert(clusters@ == all.take(budget_count(vs, all.len() as int)));
            return;
        }
        let ghost k = clusters@.len();
        clusters.pop();
        assert(clusters@ =~= all.take(k - 1));
    }
}

/// Builds the snapshot of the lines at `now`: the clusters of the current
/// window ranked by `rank_le`, at most `MAX_CLUSTERS` of them and within the
/// JSON budget, the counts of both windows, the device's label and model, and
/// the mask's labels.
pub fn build_snapshot(
    lines: Vec<InsightLine>,
    mask: LevelMask,
    device_model: &str,
    device_serial: &str,
    now: u64,
) -> (r: InsightSnapshot)
    requires
        lines@.len() <= u32::MAX,
    ensures
        ({
            let red = reduce_lines(lines@, mask, now);
            &&& r.deltas.count_now == red.1
            &&& r.deltas.count_prev == red.2
            &&& exists|base: Seq<InsightCluster>, ranked_all: Seq<InsightCluster>|
                {
                    &&& #[trigger] cluster_views(base) == red.0
                    &&& ranked(cluster_views(ranked_all))
                    &&& #[trigger] ranked_all.to_multiset() == base.to_multiset()
                    &&& r.clusters@ == ranked_all.take(
                        budget_count(
                            cluster_views(ranked_all),
                            if ranked_all.len() <= MAX_CLUSTERS {
                                ranked_all.len() as int
                            } else {
                                MAX_CLUSTERS as int
                            },
                        ),
                    )
                }
        }),
        r.device_label@ == device_label_spec(device_model@, device_serial@),
        r.device_model@ == device_model@,
        r.time_window_sec == TIME_WINDOW_SECS,
        r.levels@.map_values(|s: &str| s@) == match mask {
            LevelMask::Error => seq!["E"@, "F"@],
        },
        r.metrics is None,
{
    let (clusters, count_now, count_prev) = reduce(&lines, mask, now);
    let ghost red = reduce_lines(lines@, mask, now);
    let ghost base = clusters@;
    let sorted = rank_clusters(clusters);
    let ghost ranked_all = sorted@;
    let mut kept = sorted;
    kept.truncate(MAX_CLUSTERS);
    let ghost k0 = if ranked_all.len() <= MAX_CLUSTERS {
        ranked_all.len() as int
    } else {
        MAX_CLUSTERS as int
    };
    assert(kept@ == ranked_all.take(k0));
    assert(cluster_views(kept@) =~= cluster_views(ranked_all).take(k0));
    proof {
        lemma_budget_prefix(cluster_views(ranked_all), k0);
        lemma_budget_le(cluster_views(ranked_all), k0);
    }
    let ghost pre = kept@;
    trim_to_json_budget(&mut kept);
    let ghost b = budget_count(cluster_views(ranked_all), k0);
    assert(pre.len() == k0);
    assert(budget_count(cluster_views(pre), k0) == b);
    assert(kept@ == pre.take(b));
    assert(kept@ =~= ranked_all.take(b));
    assert(cluster_views(base) == red.0 && ranked_all.to_multiset() == base.to_multiset());
    InsightSnapshot {
        device_label: generate_device_label(device_model, device_serial),
        device_model: string_of(chars_of(device_model).as_slice()),
        time_window_sec: TIME_WINDOW_SECS,
        levels: mask.labels(),
        clusters: kept,
        deltas: SnapshotDeltas { count_now, count_prev },
        metrics: None,
    }
}

/// Budget counting over a prefix agrees with counting over the whole.
proof fn lemma_budget_prefix(s: Seq<ClusterJson>, k: int)
    requires
        0 <= k <= s.len(),
    ensures
        budget_count(s.take(k), k) == budget_count(s, k),
    decreases k,
{
    if k > 1 {
        assert(s.take(k).take(k) =~= s.take(k));
        if vstd::utf8::encode_utf8(clusters_json(s.take(k))).len() > MAX_JSON_BYTES {
            lemma_budget_prefix_from(s, k, k - 1);
        }
    }
}

proof fn lemma_budget_prefix_from(s: Seq<ClusterJson>, n: int, k: int)
    requires
        0 <= k <= n <= s.len(),
    ensures
        budget_count(s.take(n), k) == budget_count(s, k),
    decreases k,
{
    assert(s.take(n).take(k) =~= s.take(k));
    if k > 1 && vstd::utf8::encode_utf8(clusters_json(s.take(k))).len() > MAX_JSON_BYTES {
        lemma_budget_prefix_from(s, n, k - 1);
    }
}


// ---------------------------------------------------------------------------
// Digest of a snapshot
// ---------------------------------------------------------------------------

/// The fingerprints joined by commas.
pub open spec fn digest_of(fps: Seq<Seq<char>>) -> Seq<char>
    decreases fps.len(),
{
    if fps.len() == 0 {
        seq![]
    } else if fps.len() == 1 {
        fps[0]
    } else {
        digest_of(fps.drop_last()) + seq![','] + fps.last()
    }
}

impl InsightSnapshot {
    /// The fingerprints of the clusters, in order.
    pub open spec fn fingerprints(&self) -> Seq<Seq<char>> {
        self.clusters@.map_values(|c: InsightCluster| c.fingerprint@)
    }

    /// The key that identifies what the snapshot reports: the fingerprints
    /// of its clusters, in order, joined by commas.
    pub fn digest_key(&self) -> (r: String)
        ensures
            r@ == digest_of(self.fingerprints()),
    {
        let ghost fps = self.fingerprints();
        let mut out: Vec<char> = Vec::new();
        let mut i: usize = 0;
        assert(fps.take(0) =~= Seq::<Seq<char>>::empty());
        while i < self.clusters.len()
            invariant
                i <= self.clusters@.len(),
                fps == self.fingerprints(),
                out@ == digest_of(fps.take(i as int)),
            decreases self.clusters@.len() - i,
        {
            let f = chars_of(self.clusters[i].fingerprint.as_str());
            if i > 0 {
                out.push(',');
            }
            push_all(&mut out, f.as_slice());
            assert(fps.take(i + 1).drop_last() =~= fps.take(i as int));
            assert(fps.take(i + 1).last() == f@);
            if i == 0 {
                assert(out@ =~= digest_of(fps.take(1)));
            } else {
                assert(out@ =~= digest_of(fps.take(i + 1)));
            }
            i = i + 1;
        }
        assert(fps.take(i as int) =~= fps);
        string_of(out.as_slice())
    }

    /// Whether a fatal cluster is new since the digest `prev`: its
    /// fingerprint does not occur in it.
    pub fn has_new_high_severity(&self, prev: &str) -> (r: bool)
        ensures
            r == exists|i: int|
                0 <= i < self.clusters@.len() && (#[trigger] self.clusters@[i]).level == 'F' && !contains(
                    prev@,
                    self.clusters@[i].fingerprint@,
                ),
    {
        let p = chars_of(prev);
        let mut i: usize = 0;
        while i < self.clusters.len()
            invariant
                i <= self.clusters@.len(),
                p@ == prev@,
                forall|j: int|
                    0 <= j < i ==> !((#[trigger] self.clusters@[j]).level == 'F' && !contains(
                        prev@,
                        self.clusters@[j].fingerprint@,
                    )),
            decreases self.clusters@.len() - i,
        {
            if self.clusters[i].level == 'F' {
                let f = chars_of(self.clusters[i].fingerprint.as_str());
                if !contains_exec(p.as_slice(), f.as_slice()) {
                    return true;
                }
            }
            i = i + 1;
        }
        false
    }
}

} // verus!
