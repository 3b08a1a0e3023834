//! Running `adb`: what a finished process means for the caller.
//!
//! Starting the process is I/O and stays with the caller; these functions take
//! what the process left (or how starting it failed) and decide the result.

use vstd::prelude::*;

use crate::device::{devices_from_output, listed_result, DeviceInfo};
use crate::error::AdbError;
use crate::text::{chars_of, lossy_utf8, string_of, trim, trimmed, utf8_lossy};

verus! {

/// What a finished process left: whether it exited successfully, and the
/// bytes it wrote to stdout and stderr.
#[derive(Debug, Clone)]
pub struct CommandOutput {
    pub success: bool,
    pub stdout: Vec<u8>,
    pub stderr: Vec<u8>,
}

/// Why a process could not be started: whether the program was not found,
/// and the system's message.
#[derive(Debug, Clone)]
pub struct IoFailure {
    pub not_found: bool,
    pub message: String,
}

/// The arguments joined by single spaces.
pub open spec fn joined(args: Seq<Seq<char>>) -> Seq<char>
    decreases args.len(),
{
    if args.len() == 0 {
        seq![]
    } else if args.len() == 1 {
        args[0]
    } else {
        joined(args.drop_last()) + " "@ + args.last()
    }
}

/// The characters of each argument.
pub open spec fn arg_views(args: Seq<&str>) -> Seq<Seq<char>> {
    args.map_values(|a: &str| a@)
}

/// The command line that an error names: `adb` and the arguments.
pub open spec fn command_text(args: Seq<Seq<char>>) -> Seq<char> {
    "adb "@ + joined(args)
}

/// The error for a process that could not be started.
pub open spec fn io_error_spec(err: IoFailure) -> AdbError {
    if err.not_found {
        AdbError::NotFound
    } else {
        AdbError::Io(err.message)
    }
}

/// `NotFound` when the program was not found, else `Io` with the message.
pub fn map_io_error(err: IoFailure) -> (r: AdbError)
    ensures
        r == io_error_spec(err),
{
    if err.not_found {
        AdbError::NotFound
    } else {
        AdbError::Io(err.message)
    }
}

/// `e` is `CommandFailed` naming the command line of `args` and the decoded
/// stderr of `out`.
pub open spec fn failed_texts(args: Seq<Seq<char>>, out: CommandOutput, e: AdbError) -> bool {
    e matches AdbError::CommandFailed { command, stderr } && command@ == command_text(args)
        && stderr@ == lossy_utf8(out.stderr@)
}

/// The result of running `adb` with `args`, given how the process ended: the
/// output when it succeeded, `CommandFailed` (see `failed_texts`) when it
/// failed, and the start failure mapped by `io_error_spec`.
pub open spec fn run_result(
    args: Seq<Seq<char>>,
    outcome: Result<CommandOutput, IoFailure>,
    r: Result<CommandOutput, AdbError>,
) -> bool {
    match outcome {
        Err(e) => r == Err::<CommandOutput, AdbError>(io_error_spec(e)),
        Ok(out) => if out.success {
            r == Ok::<CommandOutput, AdbError>(out)
        } else {
            r matches Err(e) && failed_texts(args, out, e)
        },
    }
}

/// The output of a run that started and succeeded.
pub open spec fn succeeded(outcome: Result<CommandOutput, IoFailure>) -> Option<CommandOutput> {
    match outcome {
        Ok(out) => if out.success {
            Some(out)
        } else {
            None
        },
        Err(_) => None,
    }
}

/// For a run that did not succeed, `r` is its error: the start failure mapped
/// by `io_error_spec`, or `CommandFailed` as `failed_texts` says.
pub open spec fn run_failed<T>(
    args: Seq<Seq<char>>,
    outcome: Result<CommandOutput, IoFailure>,
    r: Result<T, AdbError>,
) -> bool {
    match outcome {
        Err(e) => r == Err::<T, AdbError>(io_error_spec(e)),
        Ok(out) => !out.success && (r matches Err(e) && failed_texts(args, out, e)),
    }
}

/// The arguments for a command on the device `serial`: `-s`, the serial,
/// then `args`.
pub open spec fn serial_args(serial: Seq<char>, args: Seq<Seq<char>>) -> Seq<Seq<char>> {
    seq!["-s"@, serial] + args
}

/// The arguments joined by single spaces.
pub fn join_args(args: &[&str]) -> (r: Vec<char>)
    ensures
        r@ == joined(arg_views(args@)),
{
    let mut out: Vec<char> = Vec::new();
    let mut i: usize = 0;
    assert(arg_views(args@.take(0)) =~= Seq::<Seq<char>>::empty());
    while i < args.len()
        invariant
            i <= args@.len(),
            out@ == joined(arg_views(args@.take(i as int))),
        decreases args@.len() - i,
    {
        let a = chars_of(args[i]);
        let ghost prev = args@.take(i as int);
        assert(args@.take(i + 1) =~= prev.push(args@[i as int]));
        assert(arg_views(prev.push(args@[i as int])).drop_last() =~= arg_views(prev));
        if i > 0 {
            out.push(' ');
        }
        let mut j: usize = 0;
        let ghost base = out@;
        while j < a.len()
            invariant
                j <= a@.len(),
                out@ == base + a@.take(j as int),
            decreases a@.len() - j,
        {
            out.push(a[j]);
            j = j + 1;
            assert(out@ =~= base + a@.take(j as int));
        }
        assert(a@.take(j as int) =~= a@);
        proof {
            reveal_strlit(" ");
            if i == 0 {
                assert(out@ =~= joined(arg_views(args@.take(1))));
            } else {
                assert(out@ =~= joined(arg_views(args@.take(i + 1))));
            }
        }
        i = i + 1;
    }
    assert(args@.take(i as int) =~= args@);
    out
}

/// The command line that an error names, as `command_text` gives it.
pub fn command_line(args: &[&str]) -> (r: String)
    ensures
        r@ == command_text(arg_views(args@)),
{
    let mut v = chars_of("adb ");
    let j = join_args(args);
    let ghost base = v@;
    let mut k: usize = 0;
    while k < j.len()
        invariant
            k <= j@.len(),
            v@ == base + j@.take(k as int),
        decreases j@.len() - k,
    {
        v.push(j[k]);
        k = k + 1;
        assert(v@ =~= base + j@.take(k as int));
    }
    assert(j@.take(k as int) =~= j@);
    string_of(v.as_slice())
}

/// Decides what running `adb` with `args` gave: the output on success,
/// `CommandFailed` naming the command line and the decoded stderr on
/// failure, and the start failure mapped by `map_io_error`.
pub fn run_adb(args: &[&str], outcome: Result<CommandOutput, IoFailure>) -> (r: Result<
    CommandOutput,
    AdbError,
>)
    ensures
        run_result(arg_views(args@), outcome, r),
{
    match outcome {
        Err(e) => Err(map_io_error(e)),
        Ok(out) => {
            if out.success {
                Ok(out)
            } else {
                let command = command_line(args);
                let stderr = utf8_lossy(out.stderr.as_slice());
                Err(AdbError::CommandFailed { command, stderr })
            }
        },
    }
}

/// Decides what running `adb -s <serial>` with `args` gave, as `run_adb`
/// does for the full argument list.
pub fn run_adb_for_serial<'a>(
    serial: &'a str,
    args: &[&'a str],
    outcome: Result<CommandOutput, IoFailure>,
) -> (r: Result<CommandOutput, AdbError>)
    ensures
        run_result(serial_args(serial@, arg_views(args@)), outcome, r),
{
    let mut full: Vec<&'a str> = Vec::new();
    full.push("-s");
    full.push(serial);
    let mut i: usize = 0;
    while i < args.len()
        invariant
            i <= args@.len(),
            full@ == seq!["-s", serial] + args@.take(i as int),
        decreases args@.len() - i,
    {
        full.push(args[i]);
        i = i + 1;
        assert(full@ =~= seq!["-s", serial] + args@.take(i as int));
    }
    assert(args@.take(i as int) =~= args@);
    assert(arg_views(full@) =~= serial_args(serial@, arg_views(args@)));
    run_adb(full.as_slice(), outcome)
}

/// The arguments of the version check.
pub open spec fn version_args() -> Seq<Seq<char>> {
    seq!["version"@]
}

/// The arguments of the device listing.
pub open spec fn list_args() -> Seq<Seq<char>> {
    seq!["devices"@, "-l"@]
}

/// Entry point for running `adb` commands.
pub struct Adb;

impl Adb {
    /// Verifies that `adb` is installed and runnable, given how `adb version`
    /// ended: `Ok` exactly when it ran and succeeded; otherwise the error of
    /// `run_adb` (a failed run is `CommandFailed`).
    pub fn check_available(outcome: Result<CommandOutput, IoFailure>) -> (r: Result<(), AdbError>)
        ensures
            match outcome {
                Err(e) => r == Err::<(), AdbError>(io_error_spec(e)),
                Ok(out) => if out.success {
                    r is Ok
                } else {
                    r matches Err(e) && failed_texts(version_args(), out, e)
                },
            },
    {
        let args = ["version"];
        assert(arg_views(args@) =~= version_args());
        match run_adb(&args, outcome) {
            Err(e) => Err(e),
            Ok(output) => {
                if output.success {
                    Ok(())
                } else {
                    let stderr = utf8_lossy(output.stderr.as_slice());
                    Err(AdbError::VersionCheckFailed(stderr))
                }
            },
        }
    }

    /// Lists the devices attached to the host, given how `adb devices -l`
    /// ended: the devices of its output as `devices_from_output` reads them,
    /// or the error of the run.
    pub fn list_devices(outcome: Result<CommandOutput, IoFailure>) -> (r: Result<
        Vec<DeviceInfo>,
        AdbError,
    >)
        ensures
            match outcome {
                Err(e) => r == Err::<Vec<DeviceInfo>, AdbError>(io_error_spec(e)),
                Ok(out) => if out.success {
                    listed_result(lossy_utf8(out.stdout@), r)
                } else {
                    r matches Err(e) && failed_texts(list_args(), out, e)
                },
            },
    {
        let args = ["devices", "-l"];
        assert(arg_views(args@) =~= list_args());
        match run_adb(&args, outcome) {
            Err(e) => Err(e),
            Ok(output) => devices_from_output(&output),
        }
    }
}

/// The device model that `getprop ro.product.model` printed: the trimmed,
/// decoded stdout, or `None` when that is empty.
pub fn model_from_getprop(output: &CommandOutput) -> (r: Option<String>)
    ensures
        match r {
            Some(m) => m@ == trim(lossy_utf8(output.stdout@)) && m@.len() > 0,
            None => trim(lossy_utf8(output.stdout@)).len() == 0,
        },
{
    let text = utf8_lossy(output.stdout.as_slice());
    let cs = chars_of(text.as_str());
    let t = trimmed(cs.as_slice());
    if t.len() == 0 {
        None
    } else {
        Some(string_of(t.as_slice()))
    }
}

/// The arguments of the model lookup for `serial`.
pub open spec fn getprop_args(serial: Seq<char>) -> Seq<Seq<char>> {
    seq!["-s"@, serial, "shell"@, "getprop"@, "ro.product.model"@]
}

/// The model of the device `serial`, given how
/// `adb -s <serial> shell getprop ro.product.model` ended: what
/// `model_from_getprop` reads from a successful run, or the error of the run.
pub fn get_device_model(serial: &str, outcome: Result<CommandOutput, IoFailure>) -> (r: Result<
    Option<String>,
    AdbError,
>)
    ensures
        match outcome {
            Err(e) => r == Err::<Option<String>, AdbError>(io_error_spec(e)),
            Ok(out) => if out.success {
                match r {
                    Ok(Some(m)) => m@ == trim(lossy_utf8(out.stdout@)) && m@.len() > 0,
                    Ok(None) => trim(lossy_utf8(out.stdout@)).len() == 0,
                    Err(_) => false,
                }
            } else {
                r matches Err(e) && failed_texts(getprop_args(serial@), out, e)
            },
        },
{
    let args = ["-s", serial, "shell", "getprop", "ro.product.model"];
    assert(arg_views(args@) =~= getprop_args(serial@));
    match run_adb(&args, outcome) {
        Err(e) => Err(e),
        Ok(output) => Ok(model_from_getprop(&output)),
    }
}

} // verus!
