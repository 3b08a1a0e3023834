//! Errors of adb commands and their user-facing descriptions.

use vstd::prelude::*;

use crate::text::{chars_of, concat, contains, lowercase, owned, to_lowercase, trim, trimmed,
    string_of, contains_exec};

verus! {

/// What went wrong running or reading `adb`.
#[derive(Debug, Clone, PartialEq, Eq)]
pub enum AdbError {
    /// `adb` is not on `PATH`.
    NotFound,
    /// Running `adb` failed for another reason; holds the system's message.
    Io(String),
    /// `adb version` did not succeed; holds its stderr.
    VersionCheckFailed(String),
    /// An adb command exited with failure.
    CommandFailed { command: String, stderr: String },
    /// adb output did not have the expected shape.
    ParseFailed(String),
}

/// The short description of an adb failure from its stderr: a fixed phrase
/// for the failures that `lower` (the lower-cased `trimmed` stderr) names,
/// else the trimmed stderr itself, or a generic phrase when that is empty.
pub open spec fn classify_spec(trimmed: Seq<char>, lower: Seq<char>) -> Seq<char> {
    if contains(lower, "device offline"@) || contains(lower, "no devices/emulators found"@) {
        "Device offline"@
    } else if contains(lower, "unauthorized"@) {
        "Device unauthorized \u{2014} accept the USB debugging prompt on the device"@
    } else if contains(lower, "permission denied"@) {
        "Permission denied"@
    } else if contains(lower, "device not found"@) {
        "Device not found"@
    } else if trimmed.len() == 0 {
        "adb command failed"@
    } else {
        trimmed
    }
}

/// `classify_spec` of the trimmed stderr and its lower-cased form.
pub open spec fn classify_stderr(stderr: Seq<char>) -> Seq<char> {
    classify_spec(trim(stderr), lowercase(trim(stderr)))
}

fn has(hay: &Vec<char>, needle: &str) -> (r: bool)
    ensures
        r == contains(hay@, needle@),
{
    let n = chars_of(needle);
    contains_exec(hay.as_slice(), n.as_slice())
}

/// Given the trimmed stderr and its lower-cased form, the description that
/// `classify_spec` gives.
pub fn classify_trimmed(trimmed: &str, lower: &str) -> (r: String)
    ensures
        r@ == classify_spec(trimmed@, lower@),
{
    let l = chars_of(lower);
    if has(&l, "device offline") || has(&l, "no devices/emulators found") {
        owned("Device offline")
    } else if has(&l, "unauthorized") {
        owned("Device unauthorized \u{2014} accept the USB debugging prompt on the device")
    } else if has(&l, "permission denied") {
        owned("Permission denied")
    } else if has(&l, "device not found") {
        owned("Device not found")
    } else if trimmed.is_empty() {
        owned("adb command failed")
    } else {
        owned(trimmed)
    }
}

/// Describes an adb failure from its stderr, as `classify_stderr` gives it.
pub fn classify_adb_stderr(stderr: &str) -> (r: String)
    ensures
        r@ == classify_stderr(stderr@),
{
    let s = chars_of(stderr);
    let t = trimmed(s.as_slice());
    let t_str = string_of(t.as_slice());
    let lower = to_lowercase(t_str.as_str());
    classify_trimmed(t_str.as_str(), lower.as_str())
}

impl AdbError {
    /// The short, user-facing description of the error.
    pub open spec fn user_message_spec(&self) -> Seq<char> {
        match self {
            AdbError::NotFound => "adb not found on PATH. Install Android SDK platform-tools."@,
            AdbError::Io(err) => "Failed to run adb: "@ + err@,
            AdbError::VersionCheckFailed(stderr) => classify_stderr(stderr@),
            AdbError::CommandFailed { stderr, .. } => classify_stderr(stderr@),
            AdbError::ParseFailed(message) => "Failed to parse device output: "@ + message@,
        }
    }

    /// Returns a short, user-facing description of the error.
    pub fn user_message(&self) -> (r: String)
        ensures
            r@ == self.user_message_spec(),
    {
        match self {
            AdbError::NotFound => owned("adb not found on PATH. Install Android SDK platform-tools."),
            AdbError::Io(err) => concat("Failed to run adb: ", err.as_str()),
            AdbError::VersionCheckFailed(stderr) => classify_adb_stderr(stderr.as_str()),
            AdbError::CommandFailed { stderr, .. } => classify_adb_stderr(stderr.as_str()),
            AdbError::ParseFailed(message) => concat(
                "Failed to parse device output: ",
                message.as_str(),
            ),
        }
    }

    /// The full description of the error.
    pub open spec fn describe_spec(&self) -> Seq<char> {
        match self {
            AdbError::NotFound =>
                "adb not found on PATH. Install Android SDK platform-tools and ensure `adb` is available."@,
            AdbError::Io(err) => "failed to run adb: "@ + err@,
            AdbError::VersionCheckFailed(stderr) => "adb version check failed: "@ + stderr@,
            AdbError::CommandFailed { command, stderr } => "adb command failed ("@ + command@
                + "): "@ + stderr@,
            AdbError::ParseFailed(message) => "failed to parse adb output: "@ + message@,
        }
    }

    /// Returns the full description of the error (what its `Display` shows).
    pub fn describe(&self) -> (r: String)
        ensures
            r@ == self.describe_spec(),
    {
        match self {
            AdbError::NotFound => owned(
                "adb not found on PATH. Install Android SDK platform-tools and ensure `adb` is available.",
            ),
            AdbError::Io(err) => concat("failed to run adb: ", err.as_str()),
            AdbError::VersionCheckFailed(stderr) => concat(
                "adb version check failed: ",
                stderr.as_str(),
            ),
            AdbError::CommandFailed { command, stderr } => {
                let a = concat("adb command failed (", command.as_str());
                let b = concat(a.as_str(), "): ");
                concat(b.as_str(), stderr.as_str())
            },
            AdbError::ParseFailed(message) => concat("failed to parse adb output: ", message.as_str()),
        }
    }
}

} // verus!
