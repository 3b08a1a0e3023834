//! Devices listed by `adb devices -l`.

use vstd::prelude::*;

use crate::adb::CommandOutput;
use crate::error::AdbError;
use crate::text::{
    chars_of, concat, eq_str, has_prefix, lines, lossy_utf8, split_lines, split_tokens,
    starts_with, string_of, tokens, trim, trimmed, utf8_lossy,
};

verus! {

/// Connection state reported by `adb devices`.
#[derive(Debug, Clone, PartialEq, Eq)]
pub enum DeviceState {
    Device,
    Offline,
    Unauthorized,
    Other(String),
}

/// The word that `adb devices` prints for a state.
pub open spec fn state_text(st: DeviceState) -> Seq<char> {
    match st {
        DeviceState::Device => "device"@,
        DeviceState::Offline => "offline"@,
        DeviceState::Unauthorized => "unauthorized"@,
        DeviceState::Other(s) => s@,
    }
}

/// `Other` holds none of the words that have a variant of their own.
pub open spec fn state_wf(st: DeviceState) -> bool {
    match st {
        DeviceState::Other(s) => s@ != "device"@ && s@ != "offline"@ && s@ != "unauthorized"@,
        _ => true,
    }
}

/// A well-formed state is `Device` exactly when its word is `device`.
proof fn lemma_ready_word(st: DeviceState)
    requires
        state_wf(st),
    ensures
        (st is Device) == (state_text(st) == "device"@),
{
    reveal_strlit("device");
    reveal_strlit("offline");
    reveal_strlit("unauthorized");
    assert("device"@.len() == 6);
    assert("offline"@.len() == 7);
    assert("unauthorized"@.len() == 12);
}

impl DeviceState {
    /// The state that `raw` names: one of the three known words, else `Other`.
    pub fn parse(raw: &[char]) -> (r: DeviceState)
        ensures
            state_text(r) == raw@,
            state_wf(r),
    {
        if eq_str(raw, "device") {
            DeviceState::Device
        } else if eq_str(raw, "offline") {
            DeviceState::Offline
        } else if eq_str(raw, "unauthorized") {
            DeviceState::Unauthorized
        } else {
            DeviceState::Other(string_of(raw))
        }
    }

    /// Tests for the `Device` (ready) state.
    pub fn is_ready(&self) -> (r: bool)
        ensures
            r == (*self is Device),
    {
        match self {
            DeviceState::Device => true,
            _ => false,
        }
    }
}

/// A device or emulator visible to `adb`.
#[derive(Debug, Clone, PartialEq, Eq)]
pub struct DeviceInfo {
    pub serial: String,
    pub model: String,
    pub state: DeviceState,
}

/// Serial, model and state word of a listed device.
pub type DeviceRow = (Seq<char>, Seq<char>, Seq<char>);

/// Serial, model and state word of a device.
pub open spec fn device_view(d: DeviceInfo) -> (Seq<char>, Seq<char>, Seq<char>) {
    (d.serial@, d.model@, state_text(d.state))
}

/// The value of the first token after `model:` among `toks`, or empty.
pub open spec fn model_in(toks: Seq<Seq<char>>) -> Seq<char>
    decreases toks.len(),
{
    if toks.len() == 0 {
        seq![]
    } else if starts_with(toks[0], "model:"@) {
        toks[0].skip("model:"@.len() as int)
    } else {
        model_in(toks.drop_first())
    }
}

/// Serial, model and state word of a `adb devices -l` line: its first two
/// tokens and the value of its first `model:` token. `None` for fewer than
/// two tokens.
pub open spec fn device_line_view(line: Seq<char>) -> Option<(Seq<char>, Seq<char>, Seq<char>)> {
    let toks = tokens(line);
    if toks.len() < 2 {
        None
    } else {
        Some((toks[0], model_in(toks.skip(2)), toks[1]))
    }
}

/// Parses one line of `adb devices -l`.
pub fn parse_device_line(line: &str) -> (r: Option<DeviceInfo>)
    ensures
        match r {
            Some(d) => device_line_view(line@) == Some(device_view(d)) && state_wf(d.state),
            None => device_line_view(line@) is None,
        },
{
    let s = chars_of(line);
    let toks = split_tokens(s.as_slice());
    if toks.len() < 2 {
        return None;
    }
    let serial = string_of(toks[0].as_slice());
    let state = DeviceState::parse(toks[1].as_slice());
    let prefix = chars_of("model:");
    let empty: [char; 0] = [];
    let model = string_of(&empty);
    assert(empty@ =~= Seq::<char>::empty());
    let mut i: usize = 2;
    let ghost all = tokens(s@);
    assert(all.skip(2).skip(0) =~= all.skip(2));
    while i < toks.len()
        invariant
            2 <= i <= toks@.len() == all.len(),
            all == tokens(line@),
            forall|j: int| 0 <= j < toks@.len() ==> #[trigger] toks@[j]@ == all[j],
            model_in(all.skip(2)) == model_in(all.skip(i as int)),
            prefix@ == "model:"@,
            model@ == Seq::<char>::empty(),
            serial@ == all[0],
            state_text(state) == all[1],
            state_wf(state),
        decreases toks@.len() - i,
    {
        assert(all.skip(i as int).drop_first() =~= all.skip(i + 1));
        assert(all.skip(i as int)[0] == toks@[i as int]@);
        if has_prefix(toks[i].as_slice(), prefix.as_slice()) {
            let v = vstd::slice::slice_subrange(toks[i].as_slice(), prefix.len(), toks[i].len());
            let found = string_of(v);
            assert(found@ == model_in(all.skip(2)));
            return Some(DeviceInfo { serial, model: found, state });
        }
        i = i + 1;
    }
    assert(all.skip(i as int) =~= Seq::<Seq<char>>::empty());
    Some(DeviceInfo { serial, model, state })
}

/// What a non-empty trimmed line of the device list becomes: the parsed line,
/// with the serial standing in for a missing model when the device is not
/// ready. `Err` holds the message for a line that does not parse.
pub open spec fn listed_device(t: Seq<char>) -> Result<(Seq<char>, Seq<char>, Seq<char>), Seq<char>> {
    match device_line_view(t) {
        None => Err("failed to parse adb devices line: "@ + t),
        Some((serial, model, st)) => Ok(
            (
                serial,
                if model.len() == 0 && st != "device"@ {
                    serial
                } else {
                    model
                },
                st,
            ),
        ),
    }
}

/// The devices of the lines `ls` (blank lines skipped), or the message of the
/// first line that does not parse.
pub open spec fn listed_devices(ls: Seq<Seq<char>>) -> Result<Seq<DeviceRow>, Seq<char>>
    decreases ls.len(),
{
    if ls.len() == 0 {
        Ok(seq![])
    } else {
        match listed_devices(ls.drop_last()) {
            Err(e) => Err(e),
            Ok(ds) => {
                let t = trim(ls.last());
                if t.len() == 0 {
                    Ok(ds)
                } else {
                    match listed_device(t) {
                        Err(e) => Err(e),
                        Ok(d) => Ok(ds.push(d)),
                    }
                }
            },
        }
    }
}

/// The lines after the first (none when there is none).
pub open spec fn rest_lines(ls: Seq<Seq<char>>) -> Seq<Seq<char>> {
    if ls.len() == 0 {
        seq![]
    } else {
        ls.drop_first()
    }
}

/// `r` is what the device listing gives for the decoded stdout `text`: the
/// devices of every line after the header, as `listed_devices` gives them, or
/// `ParseFailed` with the message of the first line that does not parse.
pub open spec fn listed_result(text: Seq<char>, r: Result<Vec<DeviceInfo>, AdbError>) -> bool {
    match r {
        Ok(v) => listed_devices(rest_lines(lines(text))) == Ok::<Seq<DeviceRow>, Seq<char>>(
            v@.map_values(|d: DeviceInfo| device_view(d)),
        ) && forall|i: int| 0 <= i < v@.len() ==> state_wf(#[trigger] v@[i].state),
        Err(e) => e matches AdbError::ParseFailed(m) && listed_devices(rest_lines(lines(text)))
            == Err::<Seq<DeviceRow>, Seq<char>>(m@),
    }
}

/// The devices that `adb devices -l` printed, read from its decoded stdout
/// as `listed_result` says. A ready device listed without a model keeps an
/// empty model: its model is read with `getprop` (see `needs_model_lookup`).
pub fn devices_from_output(output: &CommandOutput) -> (r: Result<Vec<DeviceInfo>, AdbError>)
    ensures
        listed_result(lossy_utf8(output.stdout@), r),
{
    let text = utf8_lossy(output.stdout.as_slice());
    devices_from_text(text.as_str())
}

/// The devices listed in the text `stdout`, as `listed_result` says.
pub fn devices_from_text(stdout: &str) -> (r: Result<Vec<DeviceInfo>, AdbError>)
    ensures
        listed_result(stdout@, r),
{
    let s = chars_of(stdout);
    let ls = split_lines(s.as_slice());
    let ghost all = rest_lines(lines(s@));
    let mut devices: Vec<DeviceInfo> = Vec::new();
    let mut i: usize = 1;
    if ls.len() == 0 {
        assert(devices@.map_values(|d: DeviceInfo| device_view(d)) =~= Seq::<DeviceRow>::empty());
        return Ok(devices);
    }
    assert(all.take(0) =~= Seq::<Seq<char>>::empty());
    assert(devices@.map_values(|d: DeviceInfo| device_view(d)) =~= Seq::<DeviceRow>::empty());
    while i < ls.len()
        invariant
            1 <= i <= ls@.len(),
            s@ == stdout@,
            ls@.len() == lines(s@).len(),
            forall|j: int| 0 <= j < ls@.len() ==> #[trigger] ls@[j]@ == lines(s@)[j],
            all == rest_lines(lines(s@)),
            all.len() == ls@.len() - 1,
            forall|j: int| 0 <= j < all.len() ==> #[trigger] all[j] == lines(s@)[j + 1],
            listed_devices(all.take(i - 1)) == Ok::<Seq<DeviceRow>, Seq<char>>(devices@.map_values(|d: DeviceInfo| device_view(d))),
            forall|j: int| 0 <= j < devices@.len() ==> state_wf(#[trigger] devices@[j].state),
        decreases ls@.len() - i,
    {
        let t = trimmed(ls[i].as_slice());
        let ghost prev = devices@.map_values(|d: DeviceInfo| device_view(d));
        assert(all.take(i as int).drop_last() =~= all.take(i - 1));
        assert(all.take(i as int).last() == all[i - 1]);
        assert(all[i - 1] == ls@[i as int]@);
        if t.len() > 0 {
            let t_str = string_of(t.as_slice());
            match parse_device_line(t_str.as_str()) {
                None => {
                    let msg = concat("failed to parse adb devices line: ", t_str.as_str());
                    proof {
                        assert(listed_devices(all.take(i as int)) == Err::<Seq<DeviceRow>, Seq<char>>(msg@));
                        lemma_listed_err_prefix(all, i as int);
                    }
                    return Err(AdbError::ParseFailed(msg));
                },
                Some(d) => {
                    assert(listed_device(t@) is Ok);
                    let ghost d0 = d;
                    let mut d = d;
                    let fill = d.model.as_str().is_empty() && !d.state.is_ready();
                    proof {
                        lemma_ready_word(d0.state);
                    }
                    assert(fill == (d0.model@.len() == 0 && state_text(d0.state) != "device"@));
                    if fill {
                        d.model = d.serial.clone();
                    }
                    assert(d.serial == d0.serial && d.state == d0.state);
                    assert(listed_device(t@) == Ok::<DeviceRow, Seq<char>>(device_view(d)));
                    devices.push(d);
                    assert(devices@.map_values(|d: DeviceInfo| device_view(d)) =~= prev.push(device_view(d)));
                },
            }
        }
        i = i + 1;
    }
    assert(all.take(i - 1) =~= all);
    Ok(devices)
}

/// Once a prefix of the lines fails, the whole listing fails the same way.
proof fn lemma_listed_err_prefix(all: Seq<Seq<char>>, k: int)
    requires
        0 <= k <= all.len(),
        listed_devices(all.take(k)) is Err,
    ensures
        listed_devices(all) == listed_devices(all.take(k)),
    decreases all.len() - k,
{
    if k < all.len() {
        assert(all.take(k + 1).drop_last() =~= all.take(k));
        lemma_listed_err_prefix(all, k + 1);
    } else {
        assert(all.take(k) =~= all);
    }
}

/// A ready device listed without a model: its model is read with `getprop`.
pub fn needs_model_lookup(d: &DeviceInfo) -> (r: bool)
    ensures
        r == (d.model@.len() == 0 && d.state is Device),
{
    d.model.as_str().is_empty() && d.state.is_ready()
}

/// The device with the model that `getprop` gave, or its serial when it gave
/// none.
pub fn with_model(d: DeviceInfo, model: Option<String>) -> (r: DeviceInfo)
    ensures
        r.serial == d.serial,
        r.state == d.state,
        r.model@ == match model {
            Some(m) => m@,
            None => d.serial@,
        },
{
    let mut d = d;
    match model {
        Some(m) => {
            d.model = m;
        },
        None => {
            d.model = d.serial.clone();
        },
    }
    d
}

} // verus!
