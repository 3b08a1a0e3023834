//! Replies of the DeepSeek chat completions endpoint, and what the insight
//! worker reports.

use vstd::prelude::*;

use crate::config::InsightConfig;
use crate::text::{chars_of, concat, dec, push_dec, string_of, trim, trimmed};

verus! {

#[verifier::external_type_specification]
#[verifier::external_body]
pub struct ExJsonValue(serde_json::Value);

/// Why an insight request failed.
#[derive(Debug, Clone, PartialEq, Eq)]
pub enum InsightError {
    MissingApiKey,
    Http { status: u16, body: String },
    Transport(String),
    EmptyReply,
}

impl InsightError {
    /// The description of the error (what its `Display` shows).
    pub open spec fn describe_spec(&self) -> Seq<char> {
        match self {
            InsightError::MissingApiKey => "DEEPSEEK_API_KEY is not set"@,
            InsightError::Http { status, body } => "HTTP "@ + dec(*status as nat) + ": "@ + body@,
            InsightError::Transport(m) => m@,
            InsightError::EmptyReply => "empty model reply"@,
        }
    }

    /// Returns the description of the error.
    pub fn describe(&self) -> (r: String)
        ensures
            r@ == self.describe_spec(),
    {
        match self {
            InsightError::MissingApiKey => string_of(chars_of("DEEPSEEK_API_KEY is not set").as_slice()),
            InsightError::Http { status, body } => {
                let mut v = chars_of("HTTP ");
                push_dec(&mut v, *status as u64);
                let head = string_of(v.as_slice());
                let a = concat(head.as_str(), ": ");
                concat(a.as_str(), body.as_str())
            },
            InsightError::Transport(m) => string_of(chars_of(m.as_str()).as_slice()),
            InsightError::EmptyReply => string_of(chars_of("empty model reply").as_slice()),
        }
    }
}

/// Name for what serde_json gives for `body` parsed as a JSON value and then
/// looked up at the JSON pointer `pointer`: the parser's error message when
/// `body` is not JSON; else the string found there, or `None` when nothing
/// or something other than a string is there.
pub uninterp spec fn json_string_at(body: Seq<char>, pointer: Seq<char>) -> Result<Option<Seq<char>>, Seq<char>>;

/// Calls `serde_json::from_str` for a `serde_json::Value` (the error taken
/// by its `to_string`), then `Value::pointer` and `Value::as_str`, copying
/// the string found. The contract claims only that the outcome is
/// `json_string_at` of the body and the pointer: a function of them alone.
#[verifier::external_body]
fn string_at_pointer(body: &str, pointer: &str) -> (r: Result<Option<String>, String>)
    ensures
        match r {
            Ok(Some(t)) => json_string_at(body@, pointer@) == Ok::<Option<Seq<char>>, Seq<char>>(Some(t@)),
            Ok(None) => json_string_at(body@, pointer@) == Ok::<Option<Seq<char>>, Seq<char>>(None),
            Err(m) => json_string_at(body@, pointer@) == Err::<Option<Seq<char>>, Seq<char>>(m@),
        },
{
    let value: serde_json::Value = serde_json::from_str(body).map_err(|e| e.to_string())?;
    Ok(value.pointer(pointer).and_then(serde_json::Value::as_str).map(str::to_string))
}

/// Where a chat completions response holds the assistant text.
pub open spec fn content_pointer() -> Seq<char> {
    "/choices/0/message/content"@
}

/// `r` is the reply for what was found in a response: `Transport` with the
/// parser's message when it was not JSON; the trimmed content when there is
/// content that is not blank; else `EmptyReply`.
pub open spec fn reply_for(found: Result<Option<Seq<char>>, Seq<char>>, r: Result<String, InsightError>) -> bool {
    match found {
        Err(m) => r matches Err(InsightError::Transport(t)) && t@ == m,
        Ok(None) => r == Err::<String, InsightError>(InsightError::EmptyReply),
        Ok(Some(c)) => if trim(c).len() > 0 {
            r matches Ok(t) && t@ == trim(c)
        } else {
            r == Err::<String, InsightError>(InsightError::EmptyReply)
        },
    }
}

/// The reply from the content string found in a response: the trimmed
/// content, or `EmptyReply` when there is none or it is blank.
pub fn reply_from_content(content: Option<String>) -> (r: Result<String, InsightError>)
    ensures
        match content {
            Some(c) => if trim(c@).len() > 0 {
                r matches Ok(t) && t@ == trim(c@)
            } else {
                r == Err::<String, InsightError>(InsightError::EmptyReply)
            },
            None => r == Err::<String, InsightError>(InsightError::EmptyReply),
        },
{
    match content {
        None => Err(InsightError::EmptyReply),
        Some(c) => {
            let cs = chars_of(c.as_str());
            let t = trimmed(cs.as_slice());
            if t.len() == 0 {
                Err(InsightError::EmptyReply)
            } else {
                Ok(string_of(t.as_slice()))
            }
        },
    }
}

/// The assistant text of a chat completions response body, as `reply_for`
/// says of what is found at `content_pointer`.
pub fn extract_assistant_text(body: &str) -> (r: Result<String, InsightError>)
    ensures
        reply_for(json_string_at(body@, content_pointer()), r),
{
    proof {
        reveal_strlit("/choices/0/message/content");
    }
    match string_at_pointer(body, "/choices/0/message/content") {
        Err(m) => Err(InsightError::Transport(m)),
        Ok(content) => reply_from_content(content),
    }
}

/// What came back from the chat completions endpoint: a success body, an
/// error status with its body, or a failure to get or read a reply.
#[derive(Debug, Clone, PartialEq, Eq)]
pub enum HttpReply {
    Body(String),
    Status { status: u16, body: String },
    Failed(String),
}

/// `MissingApiKey` when the configuration has no key, else nothing to stop a
/// request.
pub fn check_api_key(config: &InsightConfig) -> (r: Result<(), InsightError>)
    ensures
        r is Ok <==> trim(config.api_key@).len() > 0,
        r is Err ==> r == Err::<(), InsightError>(InsightError::MissingApiKey),
{
    if config.has_api_key() {
        Ok(())
    } else {
        Err(InsightError::MissingApiKey)
    }
}

/// The outcome of a request from what came back: the assistant text of a
/// success body (as `extract_assistant_text` says), `Http` for an error
/// status, `Transport` for a failure.
pub fn reply_from_http(reply: HttpReply) -> (r: Result<String, InsightError>)
    ensures
        match reply {
            HttpReply::Body(b) => reply_for(json_string_at(b@, content_pointer()), r),
            HttpReply::Status { status, body } => r == Err::<String, InsightError>(
                InsightError::Http { status, body },
            ),
            HttpReply::Failed(m) => r == Err::<String, InsightError>(InsightError::Transport(m)),
        },
{
    match reply {
        HttpReply::Body(b) => extract_assistant_text(b.as_str()),
        HttpReply::Status { status, body } => Err(InsightError::Http { status, body }),
        HttpReply::Failed(m) => Err(InsightError::Transport(m)),
    }
}

/// Result of one background DeepSeek call.
#[derive(Debug, Clone)]
pub enum InsightUpdate {
    Started { generation: u64, serial: String },
    Reply { generation: u64, serial: String, text: String },
    Error { generation: u64, serial: String, message: String },
}

/// The update that ends a call: the reply, or the error's description.
pub fn finished_update(generation: u64, serial: String, result: Result<String, InsightError>) -> (r: InsightUpdate)
    ensures
        match result {
            Ok(text) => r == InsightUpdate::Reply { generation, serial, text },
            Err(e) => r matches InsightUpdate::Error { generation: g, serial: s, message: m } && g
                == generation && s == serial && m@ == e.describe_spec(),
        },
{
    match result {
        Ok(text) => InsightUpdate::Reply { generation, serial, text },
        Err(e) => InsightUpdate::Error { generation, serial, message: e.describe() },
    }
}

} // verus!
