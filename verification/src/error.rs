//! Error model: typed errors inside the crate, and at the boundary an
//! [`OperatorError`] that always tells the operator what failed, why, and
//! what they can do about it.

use vstd::prelude::*;
use vstd::string::*;
use crate::text::{dec, dec_string};

verus! {

#[derive(Debug)]
pub enum CoreError {
    /// A safety gate refused the operation before anything ran.
    SafetyAbort(String),
    Validation(String),
    Command { rendered: String, detail: String },
    Timeout { rendered: String, seconds: u64 },
    State(String),
    /// The operation deliberately did not run (somebody was using the
    /// service). Not a failure, not a success.
    Deferred(String),
    Other(String),
}

/// The one-line rendering of an error, as a transcript shows it.
pub open spec fn display_of(err: &CoreError) -> Seq<char> {
    match err {
        CoreError::SafetyAbort(m) => "SAFETY ABORT: "@ + m@,
        CoreError::Validation(m) => "validation failed: "@ + m@,
        CoreError::Command { rendered, detail } => "command failed: "@ + rendered@ + ": "@ + detail@,
        CoreError::Timeout { rendered, seconds } => "timeout after "@ + dec(*seconds as nat) + "s: "@
            + rendered@,
        CoreError::State(m) => "state error: "@ + m@,
        CoreError::Deferred(m) => "deferred: "@ + m@,
        CoreError::Other(m) => m@,
    }
}

impl CoreError {
    /// The one-line rendering of the error.
    pub fn message(&self) -> (r: String)
        ensures
            r@ == display_of(self),
    {
        match self {
            CoreError::SafetyAbort(m) => {
                let mut s = String::from_str("SAFETY ABORT: ");
                s.append(m.as_str());
                s
            },
            CoreError::Validation(m) => {
                let mut s = String::from_str("validation failed: ");
                s.append(m.as_str());
                s
            },
            CoreError::Command { rendered, detail } => {
                let mut s = String::from_str("command failed: ");
                s.append(rendered.as_str());
                s.append(": ");
                s.append(detail.as_str());
                s
            },
            CoreError::Timeout { rendered, seconds } => {
                let mut s = String::from_str("timeout after ");
                let d = dec_string(*seconds);
                s.append(d.as_str());
                s.append("s: ");
                s.append(rendered.as_str());
                s
            },
            CoreError::State(m) => {
                let mut s = String::from_str("state error: ");
                s.append(m.as_str());
                s
            },
            CoreError::Deferred(m) => {
                let mut s = String::from_str("deferred: ");
                s.append(m.as_str());
                s
            },
            CoreError::Other(m) => m.clone(),
        }
    }
}

/// Operator-facing error: what / why / what you can do.
#[derive(Debug, Clone)]
pub struct OperatorError {
    pub what: String,
    pub why: String,
    pub remedy: String,
}

/// The `why` line for an error: the message it carries, or for a timeout
/// how long was waited.
pub open spec fn why_of(err: &CoreError) -> Seq<char> {
    match err {
        CoreError::SafetyAbort(m) => m@,
        CoreError::Validation(m) => m@,
        CoreError::Timeout { seconds, .. } => "no result within "@ + dec(*seconds as nat) + "s"@,
        CoreError::Command { detail, .. } => detail@,
        CoreError::State(m) => m@,
        CoreError::Deferred(m) => m@,
        CoreError::Other(m) => m@,
    }
}

/// The remedy that goes with each kind of error.
pub open spec fn remedy_of(err: &CoreError) -> Seq<char> {
    match err {
        CoreError::SafetyAbort(_) => "This gate exists to protect unmanaged guests. Check the stack manifest (vmid, hostname) — if the refusal is wrong, the manifest is wrong."@,
        CoreError::Validation(_) => "Fix the manifest or compose file and re-run; the wizard shows the same validation inline."@,
        CoreError::Timeout { .. } => "Check host load and network, then re-run the operation — re-running is always safe (idempotent)."@,
        CoreError::Command { .. } => "See the transcript in the incident bundle for the exact command and output; re-run after fixing the cause."@,
        CoreError::State(_) => "Run doctor (F6) to compare recorded state with reality."@,
        CoreError::Deferred(_) => "Nothing failed: the operation stood aside and runs again at its next opportunity."@,
        CoreError::Other(_) => "See transcript for context."@,
    }
}

impl OperatorError {
    pub fn from_core(step: &str, err: &CoreError) -> (r: Self)
        ensures
            r.what@ == "step '"@ + step@ + "' failed"@,
            r.why@ == why_of(err),
            r.remedy@ == remedy_of(err),
    {
        let (why, remedy) = match err {
            CoreError::SafetyAbort(msg) => (
                msg.clone(),
                String::from_str(
                    "This gate exists to protect unmanaged guests. Check the stack manifest (vmid, hostname) — if the refusal is wrong, the manifest is wrong.",
                ),
            ),
            CoreError::Validation(msg) => (
                msg.clone(),
                String::from_str(
                    "Fix the manifest or compose file and re-run; the wizard shows the same validation inline.",
                ),
            ),
            CoreError::Timeout { seconds, .. } => {
                let mut w = String::from_str("no result within ");
                let d = dec_string(*seconds);
                w.append(d.as_str());
                w.append("s");
                (
                    w,
                    String::from_str(
                        "Check host load and network, then re-run the operation — re-running is always safe (idempotent).",
                    ),
                )
            },
            CoreError::Command { detail, .. } => (
                detail.clone(),
                String::from_str(
                    "See the transcript in the incident bundle for the exact command and output; re-run after fixing the cause.",
                ),
            ),
            CoreError::State(msg) => (
                msg.clone(),
                String::from_str("Run doctor (F6) to compare recorded state with reality."),
            ),
            CoreError::Deferred(msg) => (
                msg.clone(),
                String::from_str(
                    "Nothing failed: the operation stood aside and runs again at its next opportunity.",
                ),
            ),
            CoreError::Other(msg) => (msg.clone(), String::from_str("See transcript for context.")),
        };
        let mut what = String::from_str("step '");
        what.append(step);
        what.append("' failed");
        OperatorError { what, why, remedy }
    }
}

} // verus!
