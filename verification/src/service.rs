//! What `systemctl` reports about a unit, and what the manager makes of it.
use vstd::prelude::*;
use crate::text::{
    contains_str, decode_lossy, eq_ascii_case_insensitive, eq_ignore_ascii_case, has_substring,
    trim, trimmed, utf8_lossy,
};
use crate::process::ProcessManager;

verus! {

/// A state change that `systemctl` can be asked to make.
#[derive(Clone, Copy, Debug, PartialEq, Eq, Structural)]
pub enum ServiceAction {
    Start,
    Stop,
    Enable,
    Disable,
}

impl ServiceAction {
    /// The `systemctl` verb for the action.
    pub open spec fn verb(self) -> Seq<char> {
        match self {
            ServiceAction::Start => "start"@,
            ServiceAction::Stop => "stop"@,
            ServiceAction::Enable => "enable"@,
            ServiceAction::Disable => "disable"@,
        }
    }

    /// The `systemctl` verb for the action.
    pub fn as_str(self) -> (s: &'static str)
        ensures
            s@ == self.verb(),
    {
        match self {
            ServiceAction::Start => "start",
            ServiceAction::Stop => "stop",
            ServiceAction::Enable => "enable",
            ServiceAction::Disable => "disable",
        }
    }
}

/// What a finished `systemctl` run left behind: whether it exited with
/// success, its raw standard output and standard error, and how its exit
/// status reads in text.
pub struct CommandOutput {
    pub success: bool,
    pub stdout: Vec<u8>,
    pub stderr: Vec<u8>,
    pub status: String,
}

/// How a unit is doing: whether it runs, and the labels `systemctl`
/// gave for its activity and for its start at boot.
#[derive(Clone, Debug)]
pub struct ServiceState {
    pub active: bool,
    pub active_label: String,
    pub enabled_label: String,
}

/// The text of a stream of command output: decoded, invalid UTF-8 replaced,
/// white space at both ends removed.
pub open spec fn stream_text(bytes: Seq<u8>) -> Seq<char> {
    trimmed(utf8_lossy(bytes))
}

/// The answer that a `systemctl` query gives: its output when there is any,
/// else its error output, else `ok` or `unknown` by its exit status.
pub open spec fn state_answer(success: bool, stdout: Seq<u8>, stderr: Seq<u8>) -> Seq<char> {
    let out = stream_text(stdout);
    let err = stream_text(stderr);
    if out.len() > 0 {
        out
    } else if err.len() > 0 {
        err
    } else if success {
        "ok"@
    } else {
        "unknown"@
    }
}

/// Whether the error output of a failed lookup says that the unit does not exist.
pub open spec fn reports_missing_unit(err: Seq<char>) -> bool {
    has_substring(err, "could not be found"@) || has_substring(err, "not-found"@)
}

/// What a `systemctl show <unit> --property LoadState --value` run says of
/// whether the unit exists, or the error that it is reported as.
pub open spec fn existence_answer(name: Seq<char>, success: bool, stdout: Seq<u8>, stderr: Seq<u8>) -> Result<bool, Seq<char>> {
    let out = stream_text(stdout);
    let err = stream_text(stderr);
    if !success {
        if reports_missing_unit(err) {
            Ok(false)
        } else {
            Err("Failed to verify service "@ + name + ": "@ + (if err.len() == 0 {
                "unknown error"@
            } else {
                err
            }))
        }
    } else {
        Ok(!eq_ascii_case_insensitive(out, "not-found"@))
    }
}

/// What a `systemctl <verb> <unit>` run comes to: nothing on success, else
/// its error output or, when that is empty, a message with the exit status.
pub open spec fn action_answer(name: Seq<char>, action: ServiceAction, success: bool, stderr: Seq<u8>, status: Seq<char>) -> Result<(), Seq<char>> {
    let err = stream_text(stderr);
    if success {
        Ok(())
    } else if err.len() == 0 {
        Err("systemctl "@ + action.verb() + " "@ + name + " failed with exit code "@ + status)
    } else {
        Err(err)
    }
}

/// A label that a query gave, or `unknown` where the query could not run.
pub open spec fn label_or_unknown(r: Result<String, String>) -> Seq<char> {
    match r {
        Ok(s) => s@,
        Err(_) => "unknown"@,
    }
}

fn string_of(s: &str) -> (r: String)
    ensures
        r@ == s@,
{
    s.to_owned()
}

fn label_of(r: Result<String, String>) -> (s: String)
    ensures
        s@ == label_or_unknown(r),
{
    match r {
        Ok(s) => s,
        Err(_) => string_of("unknown"),
    }
}

impl ProcessManager {
    /// The text of a stream of command output.
    pub fn stream_text(bytes: &[u8]) -> (r: String)
        ensures
            r@ == stream_text(bytes@),
    {
        let decoded = decode_lossy(bytes);
        trim(decoded.as_str())
    }

    /// Refuses to list a unit that `systemctl` does not know.
    pub fn confirm_exists(normalized: &str, exists: bool) -> (r: Result<(), String>)
        ensures
            match r {
                Ok(_) => exists,
                Err(e) => !exists && e@ == normalized@ + " does not exist in systemd (unit not found)"@,
            },
    {
        if exists {
            Ok(())
        } else {
            let mut msg = string_of(normalized);
            msg.append(" does not exist in systemd (unit not found)");
            Err(msg)
        }
    }

    /// The answer of a `systemctl <query> <unit>` run.
    pub fn systemctl_state(output: &CommandOutput) -> (r: String)
        ensures
            r@ == state_answer(output.success, output.stdout@, output.stderr@),
    {
        let out = Self::stream_text(output.stdout.as_slice());
        let err = Self::stream_text(output.stderr.as_slice());
        if out.unicode_len() > 0 {
            out
        } else if err.unicode_len() > 0 {
            err
        } else if output.success {
            string_of("ok")
        } else {
            string_of("unknown")
        }
    }

    /// Whether a unit exists, by the run of
    /// `systemctl show <unit> --property LoadState --value`.
    pub fn service_exists(process_name: &str, output: &CommandOutput) -> (r: Result<bool, String>)
        ensures
            match (r, existence_answer(process_name@, output.success, output.stdout@, output.stderr@)) {
                (Ok(b), Ok(c)) => b == c,
                (Err(e), Err(f)) => e@ == f,
                _ => false,
            },
    {
        let out = Self::stream_text(output.stdout.as_slice());
        let err = Self::stream_text(output.stderr.as_slice());
        if !output.success {
            if contains_str(err.as_str(), "could not be found") || contains_str(
                err.as_str(),
                "not-found",
            ) {
                return Ok(false);
            }
            let mut msg = string_of("Failed to verify service ");
            msg.append(process_name);
            msg.append(": ");
            if err.unicode_len() == 0 {
                msg.append("unknown error");
            } else {
                msg.append(err.as_str());
            }
            return Err(msg);
        }
        Ok(!eq_ignore_ascii_case(out.as_str(), "not-found"))
    }

    /// What a `systemctl <verb> <unit>` run comes to.
    pub fn run_systemctl_action(process_name: &str, action: ServiceAction, output: &CommandOutput) -> (r: Result<(), String>)
        ensures
            match (r, action_answer(process_name@, action, output.success, output.stderr@, output.status@)) {
                (Ok(_), Ok(_)) => true,
                (Err(e), Err(f)) => e@ == f,
                _ => false,
            },
    {
        if output.success {
            return Ok(());
        }
        let err = Self::stream_text(output.stderr.as_slice());
        if err.unicode_len() == 0 {
            let mut msg = string_of("systemctl ");
            msg.append(action.as_str());
            msg.append(" ");
            msg.append(process_name);
            msg.append(" failed with exit code ");
            msg.append(output.status.as_str());
            Err(msg)
        } else {
            Err(err)
        }
    }

    /// The state of a unit from the answers of `is-active` and `is-enabled`;
    /// a query that could not run reads as `unknown`.
    pub fn get_service_state(active: Result<String, String>, enabled: Result<String, String>) -> (s: ServiceState)
        ensures
            s.active_label@ == label_or_unknown(active),
            s.enabled_label@ == label_or_unknown(enabled),
            s.active <==> label_or_unknown(active) == "active"@,
    {
        let active_label = label_of(active);
        let enabled_label = label_of(enabled);
        let running = active_label == string_of("active");
        ServiceState { active: running, active_label, enabled_label }
    }

    /// The status line shown under a unit's name.
    pub fn status_line(state: &ServiceState) -> (r: String)
        ensures
            r@ == "Status: "@ + state.active_label@ + " | Boot: "@ + state.enabled_label@,
    {
        let mut line = string_of("Status: ");
        line.append(state.active_label.as_str());
        line.append(" | Boot: ");
        line.append(state.enabled_label.as_str());
        line
    }

    /// The style class of the dot that shows whether a unit runs.
    pub fn state_dot_class(active: bool) -> (r: &'static str)
        ensures
            r@ == (if active { "state-dot-active"@ } else { "state-dot-inactive"@ }),
    {
        if active {
            "state-dot-active"
        } else {
            "state-dot-inactive"
        }
    }

    /// The action that turning a unit's switch on or off asks for.
    pub fn switch_action(on: bool) -> (a: ServiceAction)
        ensures
            a == (if on { ServiceAction::Start } else { ServiceAction::Stop }),
    {
        if on {
            ServiceAction::Start
        } else {
            ServiceAction::Stop
        }
    }
}

} // verus!
