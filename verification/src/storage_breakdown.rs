//! User storage: the `df` totals of the shared storage and the sizes of its
//! well-known folders, grouped into categories.

use vstd::prelude::*;

use crate::adb::{arg_views, run_adb_for_serial, run_failed, serial_args, succeeded,
    CommandOutput, IoFailure};
use crate::device::rest_lines;
use crate::error::AdbError;
use crate::text::{chars_of, concat, find_char, find_from, lines, lossy_utf8, parse_unsigned,
    parse_unsigned_exec, split_lines, split_tokens, string_of, tokens, trim, trimmed, utf8_lossy};
use crate::textmap::TextMap;

verus! {

/// Milliseconds between two polls of the breakdown.
pub const DEFAULT_POLL_MILLIS: u64 = 30000;

/// User-visible storage category (photos, downloads, etc.).
#[derive(Debug, Clone, PartialEq, Eq)]
pub struct StorageCategory {
    pub name: String,
    pub bytes: u64,
}

/// Total user storage from `df` on `/storage/emulated`.
#[derive(Debug, Clone, PartialEq, Eq)]
pub struct StorageOverview {
    pub total_bytes: u64,
    pub used_bytes: u64,
    pub available_bytes: u64,
    pub use_percent: u32,
}

/// User storage total plus folder-based category sizes.
#[derive(Debug, Clone, PartialEq, Eq)]
pub struct StorageBreakdown {
    pub overview: StorageOverview,
    pub categories: Vec<StorageCategory>,
    pub timestamp: std::time::SystemTime,
}

/// Update from the breakdown poller.
#[derive(Debug, Clone, PartialEq, Eq)]
pub enum StorageBreakdownUpdate {
    Breakdown(StorageBreakdown),
    Error(String),
}

// ---------------------------------------------------------------------------
// Folders and categories
// ---------------------------------------------------------------------------

/// The root of the user's shared storage.
pub open spec fn storage_root() -> Seq<char> {
    "/storage/emulated/0"@
}

/// The number of well-known folders.
pub open spec fn folder_count() -> int {
    10
}

/// The `i`-th well-known folder.
pub open spec fn folder(i: int) -> Seq<char> {
    if i == 0 {
        "DCIM"@
    } else if i == 1 {
        "Pictures"@
    } else if i == 2 {
        "Movies"@
    } else if i == 3 {
        "Music"@
    } else if i == 4 {
        "Podcasts"@
    } else if i == 5 {
        "Audiobooks"@
    } else if i == 6 {
        "Ringtones"@
    } else if i == 7 {
        "Documents"@
    } else if i == 8 {
        "Download"@
    } else {
        "Android"@
    }
}

/// The category (an index into `category_name`) that the `i`-th folder counts
/// toward.
pub open spec fn folder_category(i: int) -> int {
    if i <= 2 {
        0
    } else if i <= 6 {
        3
    } else if i == 7 {
        1
    } else if i == 8 {
        2
    } else {
        4
    }
}

/// The categories, in the order in which they are listed.
pub open spec fn category_name(c: int) -> Seq<char> {
    if c == 0 {
        "Photos & videos"@
    } else if c == 1 {
        "Documents"@
    } else if c == 2 {
        "Downloads"@
    } else if c == 3 {
        "Audio"@
    } else {
        "Other"@
    }
}

/// The path of a folder under the storage root.
pub open spec fn folder_path_spec(f: Seq<char>) -> Seq<char> {
    storage_root() + "/"@ + f
}

/// The path of `folder` under the root of the user's shared storage.
pub fn folder_path(folder: &str) -> (r: String)
    ensures
        r@ == folder_path_spec(folder@),
{
    let a = concat("/storage/emulated/0", "/");
    concat(a.as_str(), folder)
}

fn folder_name(i: usize) -> (r: &'static str)
    requires
        i < 10,
    ensures
        r@ == folder(i as int),
{
    if i == 0 {
        "DCIM"
    } else if i == 1 {
        "Pictures"
    } else if i == 2 {
        "Movies"
    } else if i == 3 {
        "Music"
    } else if i == 4 {
        "Podcasts"
    } else if i == 5 {
        "Audiobooks"
    } else if i == 6 {
        "Ringtones"
    } else if i == 7 {
        "Documents"
    } else if i == 8 {
        "Download"
    } else {
        "Android"
    }
}

fn folder_category_index(i: usize) -> (r: usize)
    requires
        i < 10,
    ensures
        r as int == folder_category(i as int),
{
    if i <= 2 {
        0
    } else if i <= 6 {
        3
    } else if i == 7 {
        1
    } else if i == 8 {
        2
    } else {
        4
    }
}

fn category_label(c: usize) -> (r: &'static str)
    requires
        c < 5,
    ensures
        r@ == category_name(c as int),
{
    if c == 0 {
        "Photos & videos"
    } else if c == 1 {
        "Documents"
    } else if c == 2 {
        "Downloads"
    } else if c == 3 {
        "Audio"
    } else {
        "Other"
    }
}

/// The size recorded for the `i`-th folder's path, or zero.
pub open spec fn folder_size(sizes: Map<Seq<char>, u64>, i: int) -> nat {
    let p = folder_path_spec(folder(i));
    if sizes.dom().contains(p) {
        sizes[p] as nat
    } else {
        0
    }
}

/// The sizes of the first `n` folders that count toward category `c`, added.
pub open spec fn category_sum(sizes: Map<Seq<char>, u64>, c: int, n: int) -> nat
    decreases n,
{
    if n <= 0 {
        0
    } else {
        category_sum(sizes, c, n - 1) + if folder_category(n - 1) == c {
            folder_size(sizes, n - 1)
        } else {
            0
        }
    }
}

/// Every category's total fits in 64 bits.
pub open spec fn sums_fit(sizes: Map<Seq<char>, u64>) -> bool {
    forall|c: int| 0 <= c < 5 ==> #[trigger] category_sum(sizes, c, folder_count()) <= u64::MAX
}

proof fn lemma_category_sum_mono(sizes: Map<Seq<char>, u64>, c: int, m: int, n: int)
    requires
        0 <= m <= n,
    ensures
        category_sum(sizes, c, m) <= category_sum(sizes, c, n),
    decreases n - m,
{
    if m < n {
        lemma_category_sum_mono(sizes, c, m, n - 1);
    }
}

/// Tests whether every category's total fits in 64 bits (adding up the
/// folders of a category that does not would overflow).
pub fn category_sums_fit(sizes: &TextMap<u64>) -> (r: bool)
    ensures
        r == sums_fit(sizes@),
{
    let mut totals: Vec<u64> = vec![0, 0, 0, 0, 0];
    let mut i: usize = 0;
    while i < 10
        invariant
            i <= 10,
            totals@.len() == 5,
            forall|c: int| 0 <= c < 5 ==> #[trigger] totals@[c] as nat == category_sum(sizes@, c, i as int),
        decreases 10 - i,
    {
        let p = folder_path(folder_name(i));
        let b = match sizes.get(p.as_str()) {
            Some(v) => *v,
            None => 0,
        };
        let c = folder_category_index(i);
        if totals[c] > u64::MAX - b {
            proof {
                lemma_category_sum_mono(sizes@, c as int, i + 1, folder_count());
            }
            return false;
        }
        let t = totals[c] + b;
        totals.set(c, t);
        i = i + 1;
    }
    assert forall|c: int| 0 <= c < 5 implies #[trigger] category_sum(sizes@, c, folder_count()) <= u64::MAX by {
        assert(totals@[c] as nat == category_sum(sizes@, c, 10));
    }
    true
}

/// The size that `sizes` records for the folder named `name` under the
/// storage root, or zero.
pub open spec fn recorded_size(sizes: Map<Seq<char>, u64>, name: Seq<char>) -> nat {
    let p = "/storage/emulated/0/"@ + name;
    if sizes.dom().contains(p) {
        sizes[p] as nat
    } else {
        0
    }
}

/// What `aggregate_categories` adds into each category, folder by folder:
/// Photos & videos holds DCIM, Pictures and Movies; Documents holds
/// Documents; Downloads holds Download; Audio holds Music, Podcasts,
/// Audiobooks and Ringtones; Other holds Android.
pub proof fn category_totals_by_folder(sizes: Map<Seq<char>, u64>)
    ensures
        category_name(0) == "Photos & videos"@ && category_sum(sizes, 0, folder_count()) == recorded_size(
            sizes,
            "DCIM"@,
        ) + recorded_size(sizes, "Pictures"@) + recorded_size(sizes, "Movies"@),
        category_name(1) == "Documents"@ && category_sum(sizes, 1, folder_count()) == recorded_size(
            sizes,
            "Documents"@,
        ),
        category_name(2) == "Downloads"@ && category_sum(sizes, 2, folder_count()) == recorded_size(
            sizes,
            "Download"@,
        ),
        category_name(3) == "Audio"@ && category_sum(sizes, 3, folder_count()) == recorded_size(
            sizes,
            "Music"@,
        ) + recorded_size(sizes, "Podcasts"@) + recorded_size(sizes, "Audiobooks"@) + recorded_size(
            sizes,
            "Ringtones"@,
        ),
        category_name(4) == "Other"@ && category_sum(sizes, 4, folder_count()) == recorded_size(
            sizes,
            "Android"@,
        ),
{
    reveal_strlit("/storage/emulated/0/");
    reveal_strlit("/storage/emulated/0");
    reveal_strlit("/");
    assert forall|i: int| 0 <= i < 10 implies #[trigger] folder_size(sizes, i) == recorded_size(sizes, folder(i)) by {
        assert(folder_path_spec(folder(i)) =~= "/storage/emulated/0/"@ + folder(i));
    }
    assert(folder_size(sizes, 0) == recorded_size(sizes, "DCIM"@));
    assert(folder_size(sizes, 1) == recorded_size(sizes, "Pictures"@));
    assert(folder_size(sizes, 2) == recorded_size(sizes, "Movies"@));
    assert(folder_size(sizes, 3) == recorded_size(sizes, "Music"@));
    assert(folder_size(sizes, 4) == recorded_size(sizes, "Podcasts"@));
    assert(folder_size(sizes, 5) == recorded_size(sizes, "Audiobooks"@));
    assert(folder_size(sizes, 6) == recorded_size(sizes, "Ringtones"@));
    assert(folder_size(sizes, 7) == recorded_size(sizes, "Documents"@));
    assert(folder_size(sizes, 8) == recorded_size(sizes, "Download"@));
    assert(folder_size(sizes, 9) == recorded_size(sizes, "Android"@));
    reveal_with_fuel(category_sum, 11);
}

/// The five categories in order, each with the sizes of its folders added.
pub fn aggregate_categories(folder_sizes: &TextMap<u64>) -> (r: Vec<StorageCategory>)
    requires
        sums_fit(folder_sizes@),
    ensures
        r@.len() == 5,
        forall|c: int| 0 <= c < 5 ==> (#[trigger] r@[c]).name@ == category_name(c)
            && r@[c].bytes as nat == category_sum(folder_sizes@, c, folder_count()),
{
    let mut totals: Vec<u64> = vec![0, 0, 0, 0, 0];
    let mut i: usize = 0;
    while i < 10
        invariant
            i <= 10,
            totals@.len() == 5,
            sums_fit(folder_sizes@),
            forall|c: int| 0 <= c < 5 ==> #[trigger] totals@[c] as nat == category_sum(folder_sizes@, c, i as int),
        decreases 10 - i,
    {
        let p = folder_path(folder_name(i));
        let bytes = match folder_sizes.get(p.as_str()) {
            Some(v) => *v,
            None => 0,
        };
        let c = folder_category_index(i);
        proof {
            lemma_category_sum_mono(folder_sizes@, c as int, i + 1, folder_count());
            assert(category_sum(folder_sizes@, c as int, folder_count()) <= u64::MAX);
        }
        let t = totals[c] + bytes;
        totals.set(c, t);
        i = i + 1;
    }
    let mut out: Vec<StorageCategory> = Vec::new();
    let mut c: usize = 0;
    while c < 5
        invariant
            c <= 5,
            out@.len() == c,
            totals@.len() == 5,
            forall|k: int| 0 <= k < 5 ==> #[trigger] totals@[k] as nat == category_sum(folder_sizes@, k, 10),
            forall|k: int| 0 <= k < c ==> (#[trigger] out@[k]).name@ == category_name(k)
                && out@[k].bytes as nat == category_sum(folder_sizes@, k, folder_count()),
        decreases 5 - c,
    {
        let name = string_of(chars_of(category_label(c)).as_slice());
        out.push(StorageCategory { name, bytes: totals[c] });
        c = c + 1;
    }
    out
}

// ---------------------------------------------------------------------------
// df
// ---------------------------------------------------------------------------

/// A kB count as bytes, saturating at the largest 64-bit value.
pub open spec fn kb_bytes(kb: nat) -> nat {
    if kb * 1024 <= u64::MAX {
        kb * 1024
    } else {
        u64::MAX as nat
    }
}

/// `s` without its trailing `%` characters.
pub open spec fn strip_percent(s: Seq<char>) -> Seq<char>
    decreases s.len(),
{
    if s.len() > 0 && s.last() == '%' {
        strip_percent(s.drop_last())
    } else {
        s
    }
}

/// The overview that the fields of a `df` line give: size, used and
/// available kB (in bytes), and the use percentage (zero when it does not
/// read as a number); else the message for the first field that is not a
/// number.
pub open spec fn df_fields(toks: Seq<Seq<char>>) -> Result<(nat, nat, nat, nat), Seq<char>> {
    match parse_unsigned(toks[1], u64::MAX as nat) {
        None => Err("invalid df size: "@ + toks[1]),
        Some(total) => match parse_unsigned(toks[2], u64::MAX as nat) {
            None => Err("invalid df used: "@ + toks[2]),
            Some(used) => match parse_unsigned(toks[3], u64::MAX as nat) {
                None => Err("invalid df avail: "@ + toks[3]),
                Some(avail) => Ok(
                    (
                        kb_bytes(total),
                        kb_bytes(used),
                        kb_bytes(avail),
                        match parse_unsigned(strip_percent(toks[4]), u32::MAX as nat) {
                            Some(p) => p,
                            None => 0,
                        },
                    ),
                ),
            },
        },
    }
}

/// The overview of the first line among `ls` with at least six fields.
pub open spec fn df_scan(ls: Seq<Seq<char>>) -> Result<(nat, nat, nat, nat), Seq<char>>
    decreases ls.len(),
{
    if ls.len() == 0 {
        Err("missing user storage df line"@)
    } else {
        let toks = tokens(trim(ls[0]));
        if toks.len() < 6 {
            df_scan(ls.drop_first())
        } else {
            df_fields(toks)
        }
    }
}

/// What `df -k` output says of the user storage: the first line after the
/// header with at least six fields, as `df_fields` reads it.
pub open spec fn df_spec(text: Seq<char>) -> Result<(nat, nat, nat, nat), Seq<char>> {
    df_scan(rest_lines(lines(text)))
}

/// The four values of an overview.
pub open spec fn overview_view(o: StorageOverview) -> (nat, nat, nat, nat) {
    (o.total_bytes as nat, o.used_bytes as nat, o.available_bytes as nat, o.use_percent as nat)
}

/// `r` is the parse that `spec` describes.
pub open spec fn overview_result(
    spec: Result<(nat, nat, nat, nat), Seq<char>>,
    r: Result<StorageOverview, AdbError>,
) -> bool {
    match spec {
        Ok(f) => r matches Ok(o) && overview_view(o) == f,
        Err(e) => r matches Err(AdbError::ParseFailed(s)) && s@ == e,
    }
}

fn kb_to_bytes(kb: u64) -> (r: u64)
    ensures
        r as nat == kb_bytes(kb as nat),
{
    if kb <= u64::MAX / 1024 {
        kb * 1024
    } else {
        u64::MAX
    }
}

fn parse_field(tok: &Vec<char>, what: &str) -> (r: Result<u64, AdbError>)
    ensures
        match parse_unsigned(tok@, u64::MAX as nat) {
            Some(v) => r == Ok::<u64, AdbError>(v as u64),
            None => r matches Err(AdbError::ParseFailed(s)) && s@ == what@ + tok@,
        },
{
    match parse_unsigned_exec(tok.as_slice(), u64::MAX) {
        Some(v) => Ok(v),
        None => {
            let t = string_of(tok.as_slice());
            Err(AdbError::ParseFailed(concat(what, t.as_str())))
        },
    }
}

fn strip_percent_exec(s: &Vec<char>) -> (r: Vec<char>)
    ensures
        r@ == strip_percent(s@),
{
    let mut e = s.len();
    assert(s@.take(e as int) =~= s@);
    while e > 0 && s[e - 1] == '%'
        invariant
            e <= s@.len(),
            strip_percent(s@) == strip_percent(s@.take(e as int)),
        decreases e,
    {
        assert(s@.take(e as int).drop_last() =~= s@.take(e - 1));
        e = e - 1;
    }
    vstd::slice::slice_to_vec(vstd::slice::slice_subrange(s.as_slice(), 0, e))
}

/// Reads the user storage overview from `df -k` output, as `df_spec` says.
pub fn parse_user_storage_df(text: &str) -> (r: Result<StorageOverview, AdbError>)
    ensures
        overview_result(df_spec(text@), r),
{
    let cs = chars_of(text);
    let ls = split_lines(cs.as_slice());
    let ghost all = lines(text@);
    let ghost rest = rest_lines(all);
    let mut i: usize = 1;
    if ls.len() == 0 {
        return Err(AdbError::ParseFailed(string_of(chars_of("missing user storage df line").as_slice())));
    }
    assert(rest.skip(0) =~= rest);
    while i < ls.len()
        invariant
            1 <= i <= ls@.len() == all.len(),
            cs@ == text@,
            all == lines(text@),
            rest == rest_lines(all),
            forall|j: int| 0 <= j < ls@.len() ==> #[trigger] ls@[j]@ == all[j],
            df_scan(rest) == df_scan(rest.skip(i - 1)),
        decreases ls@.len() - i,
    {
        let ghost tail = rest.skip(i - 1);
        assert(tail[0] == ls@[i as int]@);
        assert(tail.drop_first() =~= rest.skip(i as int));
        let t = trimmed(ls[i].as_slice());
        let parts = split_tokens(t.as_slice());
        if parts.len() >= 6 {
            let total = match parse_field(&parts[1], "invalid df size: ") {
                Ok(v) => v,
                Err(e) => return Err(e),
            };
            let used = match parse_field(&parts[2], "invalid df used: ") {
                Ok(v) => v,
                Err(e) => return Err(e),
            };
            let avail = match parse_field(&parts[3], "invalid df avail: ") {
                Ok(v) => v,
                Err(e) => return Err(e),
            };
            let pct = strip_percent_exec(&parts[4]);
            let use_percent: u32 = match parse_unsigned_exec(pct.as_slice(), 0xffff_ffff) {
                Some(p) => p as u32,
                None => 0,
            };
            return Ok(StorageOverview {
                total_bytes: kb_to_bytes(total),
                used_bytes: kb_to_bytes(used),
                available_bytes: kb_to_bytes(avail),
                use_percent,
            });
        }
        i = i + 1;
    }
    assert(rest.skip(i - 1) =~= Seq::<Seq<char>>::empty());
    Err(AdbError::ParseFailed(string_of(chars_of("missing user storage df line").as_slice())))
}

// ---------------------------------------------------------------------------
// du
// ---------------------------------------------------------------------------

/// Index of the separator in a trimmed `du` line: its first tab, or else its
/// first space (the length when there is neither).
pub open spec fn du_split(t: Seq<char>) -> int {
    if find_from(t, '\t', 0) < t.len() {
        find_from(t, '\t', 0)
    } else {
        find_from(t, ' ', 0)
    }
}

/// The path and size that a `du -sb` line gives: the part before the
/// separator as an unsigned 64-bit number, and the trimmed rest.
pub open spec fn du_entry(l: Seq<char>) -> Option<(Seq<char>, u64)> {
    let t = trim(l);
    let i = du_split(t);
    if t.len() == 0 || i >= t.len() {
        None
    } else {
        match parse_unsigned(t.take(i), u64::MAX as nat) {
            Some(b) => Some((trim(t.skip(i + 1)), b as u64)),
            None => None,
        }
    }
}

/// The sizes that the lines `ls` give, a later line for a path overriding an
/// earlier one.
pub open spec fn du_map(ls: Seq<Seq<char>>) -> Map<Seq<char>, u64>
    decreases ls.len(),
{
    if ls.len() == 0 {
        Map::empty()
    } else {
        match du_entry(ls.last()) {
            Some((p, b)) => du_map(ls.drop_last()).insert(p, b),
            None => du_map(ls.drop_last()),
        }
    }
}

/// Reads `du -sb` output into a map from path to size in bytes, as `du_map`
/// says; lines that do not read are skipped.
pub fn parse_du_bytes(text: &str) -> (r: TextMap<u64>)
    ensures
        r@ == du_map(lines(text@)),
{
    let cs = chars_of(text);
    let ls = split_lines(cs.as_slice());
    let ghost all = lines(text@);
    let mut sizes: TextMap<u64> = TextMap::new();
    let mut i: usize = 0;
    assert(all.take(0) =~= Seq::<Seq<char>>::empty());
    while i < ls.len()
        invariant
            i <= ls@.len() == all.len(),
            all == lines(text@),
            forall|j: int| 0 <= j < ls@.len() ==> #[trigger] ls@[j]@ == all[j],
            sizes@ == du_map(all.take(i as int)),
        decreases ls@.len() - i,
    {
        let ghost l = all[i as int];
        assert(all.take(i + 1).drop_last() =~= all.take(i as int));
        assert(all.take(i + 1).last() == l);
        let t = trimmed(ls[i].as_slice());
        if t.len() > 0 {
            let tab = find_char(t.as_slice(), '\t', 0);
            let sep = if tab < t.len() {
                tab
            } else {
                find_char(t.as_slice(), ' ', 0)
            };
            if sep < t.len() {
                let raw = vstd::slice::slice_subrange(t.as_slice(), 0, sep);
                assert(raw@ =~= t@.take(sep as int));
                match parse_unsigned_exec(raw, u64::MAX) {
                    Some(b) => {
                        let path = trimmed(vstd::slice::slice_subrange(t.as_slice(), sep + 1, t.len()));
                        assert(path@ =~= trim(t@.skip(sep + 1)));
                        sizes.insert(string_of(path.as_slice()), b);
                    },
                    None => {},
                }
            }
        }
        i = i + 1;
    }
    assert(all.take(i as int) =~= all);
    sizes
}

/// The arguments of the folder size scan: `shell du -sb` and each
/// well-known folder's path.
pub open spec fn du_args() -> Seq<Seq<char>> {
    seq!["shell"@, "du"@, "-sb"@] + Seq::new(10, |i: int| folder_path_spec(folder(i)))
}

/// The arguments of the folder size scan, as `du_args` lists them.
pub fn du_arguments() -> (r: Vec<String>)
    ensures
        r@.map_values(|s: String| s@) == du_args(),
{
    let mut out: Vec<String> = Vec::new();
    out.push(string_of(chars_of("shell").as_slice()));
    out.push(string_of(chars_of("du").as_slice()));
    out.push(string_of(chars_of("-sb").as_slice()));
    let mut i: usize = 0;
    while i < 10
        invariant
            i <= 10,
            out@.len() == 3 + i,
            out@.map_values(|s: String| s@) == seq!["shell"@, "du"@, "-sb"@] + Seq::new(
                i as nat,
                |k: int| folder_path_spec(folder(k)),
            ),
        decreases 10 - i,
    {
        let p = folder_path(folder_name(i));
        let ghost prev = out@;
        out.push(p);
        assert(out@.map_values(|s: String| s@) =~= prev.map_values(|s: String| s@).push(p@));
        assert(out@.map_values(|s: String| s@) =~= seq!["shell"@, "du"@, "-sb"@] + Seq::new(
            (i + 1) as nat,
            |k: int| folder_path_spec(folder(k)),
        ));
        i = i + 1;
    }
    out
}

/// The arguments of the `df` run.
pub open spec fn df_args() -> Seq<Seq<char>> {
    seq!["shell"@, "df"@, "-k"@, storage_root()]
}

/// The user storage overview of a device, given how
/// `adb -s <serial> shell df -k /storage/emulated/0` ended: the parse of its
/// decoded stdout, or the error of the run.
pub fn fetch_storage_overview(serial: &str, outcome: Result<CommandOutput, IoFailure>) -> (r: Result<
    StorageOverview,
    AdbError,
>)
    ensures
        match succeeded(outcome) {
            Some(out) => overview_result(df_spec(lossy_utf8(out.stdout@)), r),
            None => run_failed(serial_args(serial@, df_args()), outcome, r),
        },
{
    let args = ["shell", "df", "-k", "/storage/emulated/0"];
    assert(arg_views(args@) =~= df_args());
    match run_adb_for_serial(serial, &args, outcome) {
        Err(e) => Err(e),
        Ok(output) => {
            let text = utf8_lossy(output.stdout.as_slice());
            parse_user_storage_df(text.as_str())
        },
    }
}

/// The folder sizes of a device, given how the `du -sb` run over the
/// well-known folders (see `du_args`) ended: the map that its decoded stdout
/// gives, or the error of the run.
pub fn fetch_folder_sizes(serial: &str, outcome: Result<CommandOutput, IoFailure>) -> (r: Result<
    TextMap<u64>,
    AdbError,
>)
    ensures
        match succeeded(outcome) {
            Some(out) => r matches Ok(m) && m@ == du_map(lines(lossy_utf8(out.stdout@))),
            None => run_failed(serial_args(serial@, du_args()), outcome, r),
        },
{
    let owned_args = du_arguments();
    let mut args: Vec<&str> = Vec::new();
    let mut i: usize = 0;
    while i < owned_args.len()
        invariant
            i <= owned_args@.len(),
            arg_views(args@) == owned_args@.take(i as int).map_values(|s: String| s@),
        decreases owned_args@.len() - i,
    {
        let a = owned_args[i].as_str();
        let ghost prev = args@;
        args.push(a);
        assert(arg_views(args@) =~= arg_views(prev).push(owned_args@[i as int]@));
        assert(owned_args@.take(i + 1).map_values(|s: String| s@) =~= owned_args@.take(
            i as int,
        ).map_values(|s: String| s@).push(owned_args@[i as int]@));
        i = i + 1;
        assert(arg_views(args@) =~= owned_args@.take(i as int).map_values(|s: String| s@));
    }
    assert(owned_args@.take(i as int) =~= owned_args@);
    match run_adb_for_serial(serial, args.as_slice(), outcome) {
        Err(e) => Err(e),
        Ok(output) => {
            let text = utf8_lossy(output.stdout.as_slice());
            Ok(parse_du_bytes(text.as_str()))
        },
    }
}

/// The breakdown of a device's storage from its overview and folder sizes,
/// taken at `timestamp`.
pub fn storage_breakdown(
    overview: StorageOverview,
    folder_sizes: &TextMap<u64>,
    timestamp: std::time::SystemTime,
) -> (r: StorageBreakdown)
    requires
        sums_fit(folder_sizes@),
    ensures
        r.overview == overview,
        r.timestamp == timestamp,
        r.categories@.len() == 5,
        forall|c: int| 0 <= c < 5 ==> (#[trigger] r.categories@[c]).name@ == category_name(c)
            && r.categories@[c].bytes as nat == category_sum(folder_sizes@, c, folder_count()),
{
    StorageBreakdown { overview, categories: aggregate_categories(folder_sizes), timestamp }
}

} // verus!
