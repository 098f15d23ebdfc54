//! Ending a process and its children, after a look at what is asked for.

use vstd::prelude::*;
use vstd::string::StringExecFns;
use crate::digits::{decimal, decimal_text};
use crate::text::{all_blank, blank, from_utf8_lossy, law_trimmed, trim, trimmed, utf8_text, views};

verus! {

/// The process that is the kernel itself.
pub const SYSTEM_PID: i64 = 4;

/// Why a process is not ended.
pub open spec fn refusal(pid: Option<i64>, own: u32, windows: bool) -> Option<Seq<char>> {
    match pid {
        Some(p) if p > 0 => if p == own {
            Some("Refusing to kill the widget itself"@)
        } else if windows && p == SYSTEM_PID {
            Some("Refusing to kill a system-critical process"@)
        } else {
            None
        },
        _ => Some("Invalid PID"@),
    }
}

/// Lets a process number pass: above zero, not that of the widget (`own`), and on
/// Windows not that of the kernel.
pub fn validate_kill_pid(pid: Option<i64>, own: u32, windows: bool) -> (r: Result<i64, &'static str>)
    ensures
        match r {
            Ok(p) => pid == Some(p) && refusal(pid, own, windows) is None,
            Err(why) => refusal(pid, own, windows) == Some(why@),
        },
{
    match pid {
        Some(p) => {
            if p <= 0 {
                return Err("Invalid PID");
            }
            if p == own as i64 {
                return Err("Refusing to kill the widget itself");
            }
            if windows && p == SYSTEM_PID {
                return Err("Refusing to kill a system-critical process");
            }
            Ok(p)
        },
        None => Err("Invalid PID"),
    }
}

/// A process to end: its number, and the arguments of `taskkill`.
pub struct KillCommand {
    pub pid: i64,
    pub args: Vec<String>,
}

/// The arguments that end a process by force, with its children.
pub open spec fn kill_args(pid: i64) -> Seq<Seq<char>> {
    seq!["/F"@, "/T"@, "/PID"@, decimal(pid as nat)]
}

/// Why nothing is run to end a process: its number does not pass, or, where it does,
/// the system is not Windows.
pub open spec fn kill_refusal(pid: Option<i64>, own: u32, windows: bool) -> Option<Seq<char>> {
    match refusal(pid, own, windows) {
        Some(why) => Some(why),
        None => if windows {
            None
        } else {
            Some("Unsupported platform"@)
        },
    }
}

/// What to run to end a process. Only Windows is supported.
pub fn kill_process(pid: Option<i64>, own: u32, windows: bool) -> (r: Result<KillCommand, String>)
    ensures
        match r {
            Ok(command) => {
                &&& pid == Some(command.pid)
                &&& command.pid > 0
                &&& kill_refusal(pid, own, windows) is None
                &&& views(command.args@) == kill_args(command.pid)
            },
            Err(why) => kill_refusal(pid, own, windows) == Some(why@),
        },
{
    match validate_kill_pid(pid, own, windows) {
        Ok(p) => {
            if !windows {
                return Err("Unsupported platform".to_owned());
            }
            let mut args: Vec<String> = Vec::new();
            args.push("/F".to_owned());
            args.push("/T".to_owned());
            args.push("/PID".to_owned());
            args.push(decimal_text(p as u64));
            assert(views(args@) == kill_args(p));
            Ok(KillCommand { pid: p, args })
        },
        Err(why) => Err(why.to_owned()),
    }
}

/// How the run of `taskkill` went.
pub enum KillRun {
    /// It could not be started, for the given reason.
    NotStarted(String),
    Succeeded,
    /// It failed, and wrote the given bytes.
    Failed(Vec<u8>),
}

pub open spec fn not_started_text(pid: i64, reason: Seq<char>) -> Seq<char> {
    "Failed to kill process "@ + decimal(pid as nat) + " ("@ + reason + ")"@
}

pub open spec fn failed_text(pid: i64, output: Seq<char>) -> Seq<char> {
    "Failed to kill process "@ + decimal(pid as nat) + ": "@ + trimmed(output)
}

/// The message of a run that failed, from what it wrote.
pub fn failed_message(pid: i64, output: &str) -> (r: String)
    requires
        pid > 0,
    ensures
        r@ == failed_text(pid, output@),
{
    let mut out = "Failed to kill process ".to_owned();
    out.append(decimal_text(pid as u64).as_str());
    out.append(": ");
    out.append(trim(output).as_str());
    out
}

/// The result of ending a process.
pub fn kill_outcome(pid: i64, run: KillRun) -> (r: Result<i64, String>)
    requires
        pid > 0,
    ensures
        match r {
            Ok(p) => p == pid && run is Succeeded,
            Err(why) => match run {
                KillRun::NotStarted(reason) => why@ == not_started_text(pid, reason@),
                KillRun::Succeeded => false,
                KillRun::Failed(output) => why@ == failed_text(pid, utf8_text(output@)),
            },
        },
{
    match run {
        KillRun::NotStarted(reason) => {
            let mut out = "Failed to kill process ".to_owned();
            out.append(decimal_text(pid as u64).as_str());
            out.append(" (");
            out.append(reason.as_str());
            out.append(")");
            Err(out)
        },
        KillRun::Succeeded => Ok(pid),
        KillRun::Failed(output) => {
            let text = from_utf8_lossy(&output);
            Err(failed_message(pid, text.as_str()))
        },
    }
}

/// Whatever is asked for, the widget itself, the kernel and what is no process
/// number are never ended; every other process is let pass. The answer to what is no
/// process number is the same on every system.
pub proof fn law_never_ends_the_widget_or_the_kernel(own: u32)
    ensures
        refusal(Some(own as i64), own, true) is Some,
        refusal(Some(SYSTEM_PID), own, true) is Some,
        refusal(None, own, true) is Some,
        forall|p: i64| p <= 0 ==> refusal(Some(p), own, true) is Some,
        forall|p: i64|
            0 < p && p != own && p != SYSTEM_PID ==> refusal(Some(p), own, true) is None,
        forall|pid: Option<i64>, windows: bool|
            pid is None || pid->0 <= 0 ==> #[trigger] kill_refusal(pid, own, windows) == Some(
                "Invalid PID"@,
            ),
        own > 0 ==> forall|windows: bool| #[trigger]
            kill_refusal(Some(own as i64), own, windows) is Some,
{
}

/// On Windows a process is ended just where its number is above zero, not that of the
/// widget and not 4; on any other system none is. `taskkill` is told to end it by force,
/// with its children, by its own number.
pub proof fn law_what_is_ended(pid: i64, own: u32, windows: bool)
    ensures
        kill_refusal(Some(pid), own, windows) is None <==> windows && pid > 0 && pid != own && pid
            != 4,
        pid > 0 ==> kill_args(pid).len() == 4 && kill_args(pid)[0] == "/F"@ && kill_args(pid)[1]
            == "/T"@ && kill_args(pid)[2] == "/PID"@ && kill_args(pid)[3] == decimal(pid as nat),
        pid > 0 && pid == own ==> kill_refusal(Some(pid), own, windows) == Some(
            "Refusing to kill the widget itself"@,
        ),
        pid == 4 && pid != own && windows ==> kill_refusal(Some(pid), own, windows) == Some(
            "Refusing to kill a system-critical process"@,
        ),
        pid > 0 && pid != own && !windows ==> kill_refusal(Some(pid), own, windows) == Some(
            "Unsupported platform"@,
        ),
{
}

/// A failed run is told with the number of the process and what was written, without
/// the blanks around it.
pub proof fn law_failures_are_told(pid: i64, before: Seq<char>, output: Seq<char>, after: Seq<char>)
    requires
        pid > 0,
        all_blank(before),
        all_blank(after),
        output.len() > 0 ==> !blank(output[0]) && !blank(output.last()),
    ensures
        failed_text(pid, before + output + after) == "Failed to kill process "@ + decimal(
            pid as nat,
        ) + ": "@ + output,
        not_started_text(pid, output) == "Failed to kill process "@ + decimal(pid as nat) + " ("@
            + output + ")"@,
{
    law_trimmed(before, output, after);
}

} // verus!
