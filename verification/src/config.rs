//! DeepSeek settings: endpoint, model and API key.

use vstd::prelude::*;

use crate::text::{chars_of, concat, find_char, find_from, has_prefix, starts_with, string_of, trim,
    trimmed};

verus! {

/// The endpoint used when none is configured.
pub open spec fn default_base_url() -> Seq<char> {
    "https://api.deepseek.com"@
}

/// The model used when none is configured.
pub open spec fn default_model() -> Seq<char> {
    "deepseek-v4-pro"@
}

/// DeepSeek endpoint, model, and API key for one request.
#[derive(Debug, Clone)]
pub struct InsightConfig {
    pub api_key: String,
    pub base_url: String,
    pub model: String,
}

/// `s` without its trailing `/` characters.
pub open spec fn strip_slashes(s: Seq<char>) -> Seq<char>
    decreases s.len(),
{
    if s.len() > 0 && s.last() == '/' {
        strip_slashes(s.drop_last())
    } else {
        s
    }
}

/// `s` without its leading copies of `p` (`p` not empty).
pub open spec fn strip_leading(s: Seq<char>, p: Seq<char>) -> Seq<char>
    decreases s.len(),
{
    if p.len() > 0 && starts_with(s, p) {
        strip_leading(s.skip(p.len() as int), p)
    } else {
        s
    }
}

/// The part of `s` before its first `/`.
pub open spec fn before_slash(s: Seq<char>) -> Seq<char> {
    s.take(find_from(s, '/', 0))
}

fn strip_leading_exec(s: Vec<char>, p: &str) -> (r: Vec<char>)
    ensures
        r@ == strip_leading(s@, p@),
{
    let pc = chars_of(p);
    let mut cur = s;
    if pc.len() == 0 {
        return cur;
    }
    while has_prefix(cur.as_slice(), pc.as_slice())
        invariant
            pc@ == p@,
            pc@.len() > 0,
            strip_leading(s@, p@) == strip_leading(cur@, p@),
        decreases cur@.len(),
    {
        let n = cur.len();
        cur = vstd::slice::slice_to_vec(vstd::slice::slice_subrange(cur.as_slice(), pc.len(), n));
    }
    cur
}

impl InsightConfig {
    /// The settings from the three environment values: a missing key is
    /// empty, and a missing endpoint or model takes its default.
    pub fn from_values(api_key: Option<String>, base_url: Option<String>, model: Option<String>) -> (r: InsightConfig)
        ensures
            r.api_key@ == match api_key {
                Some(k) => k@,
                None => Seq::<char>::empty(),
            },
            r.base_url@ == match base_url {
                Some(u) => u@,
                None => default_base_url(),
            },
            r.model@ == match model {
                Some(m) => m@,
                None => default_model(),
            },
    {
        InsightConfig {
            api_key: match api_key {
                Some(k) => k,
                None => String::new(),
            },
            base_url: match base_url {
                Some(u) => u,
                None => string_of(chars_of("https://api.deepseek.com").as_slice()),
            },
            model: match model {
                Some(m) => m,
                None => string_of(chars_of("deepseek-v4-pro").as_slice()),
            },
        }
    }

    /// Returns true when `api_key` is non-empty after trim.
    pub fn has_api_key(&self) -> (r: bool)
        ensures
            r == (trim(self.api_key@).len() > 0),
    {
        let k = chars_of(self.api_key.as_str());
        trimmed(k.as_slice()).len() > 0
    }

    /// Builds `{base_url}/chat/completions`: the endpoint trimmed and without
    /// trailing slashes.
    pub fn completions_url(&self) -> (r: String)
        ensures
            r@ == strip_slashes(trim(self.base_url@)) + "/chat/completions"@,
    {
        let b = chars_of(self.base_url.as_str());
        let t = trimmed(b.as_slice());
        let mut e = t.len();
        assert(t@.take(e as int) =~= t@);
        while e > 0 && t[e - 1] == '/'
            invariant
                e <= t@.len(),
                strip_slashes(t@) == strip_slashes(t@.take(e as int)),
            decreases e,
        {
            assert(t@.take(e as int).drop_last() =~= t@.take(e - 1));
            e = e - 1;
        }
        let base = string_of(vstd::slice::slice_subrange(t.as_slice(), 0, e));
        assert(base@ =~= strip_slashes(t@));
        concat(base.as_str(), "/chat/completions")
    }

    /// The host of `base_url` for logs: the trimmed endpoint without leading
    /// `https://` and then `http://` prefixes, up to its first `/`.
    pub fn host_for_log(&self) -> (r: String)
        ensures
            r@ == before_slash(strip_leading(strip_leading(trim(self.base_url@), "https://"@), "http://"@)),
    {
        let b = chars_of(self.base_url.as_str());
        let t = trimmed(b.as_slice());
        let a = strip_leading_exec(t, "https://");
        let c = strip_leading_exec(a, "http://");
        let i = find_char(c.as_slice(), '/', 0);
        let host = vstd::slice::slice_subrange(c.as_slice(), 0, i);
        string_of(host)
    }

    /// The `Authorization` header value: `Bearer` and the trimmed key.
    pub fn authorization(&self) -> (r: String)
        ensures
            r@ == "Bearer "@ + trim(self.api_key@),
    {
        let k = chars_of(self.api_key.as_str());
        let t = string_of(trimmed(k.as_slice()).as_slice());
        concat("Bearer ", t.as_str())
    }
}

} // verus!
