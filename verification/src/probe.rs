//! Interpretation of one external-tool invocation.
//!
//! Spawning the tool happens outside the library; what comes back is a
//! [`ProbeResult`] of plain values, and the functions here decide what it
//! means. Success requires a zero exit status; every other kind of
//! failure is carried as descriptive text, never as a subtype a caller
//! could branch on.

use vstd::prelude::*;
use vstd::string::StringExecFns;

verus! {

/// The captured outcome of running one external tool: created per
/// invocation and consumed by [`probe_to_result`].
pub struct ProbeResult {
    /// Whether the tool exited with status zero.
    pub success: bool,
    /// Captured standard output, decoded as text.
    pub stdout: String,
    /// Captured standard error, decoded as text.
    pub stderr: String,
    /// The raw exit status; success means it was zero.
    pub exit_code: i32,
}

impl ProbeResult {
    /// A well-formed capture: the success flag agrees with the status.
    pub open spec fn wf(&self) -> bool {
        self.success == (self.exit_code == 0)
    }
}

/// Why a capability could not be served.
pub enum ToolError {
    /// The executable is missing, could not be spawned, or produced
    /// undecodable output.
    Unavailable(String),
    /// The tool ran and exited with a non-zero status; carries the
    /// captured diagnostic text.
    Failed(String),
    /// A tool or file produced output of an unexpected shape.
    Parse(String),
}

impl ToolError {
    /// The descriptive text of the error.
    pub open spec fn spec_message(&self) -> Seq<char> {
        match self {
            ToolError::Unavailable(m) => m@,
            ToolError::Failed(m) => m@,
            ToolError::Parse(m) => m@,
        }
    }

    /// The descriptive text of the error.
    pub fn message(&self) -> (m: &String)
        ensures
            m@ == self.spec_message(),
    {
        match self {
            ToolError::Unavailable(m) => m,
            ToolError::Failed(m) => m,
            ToolError::Parse(m) => m,
        }
    }
}

/// What a finished probe means: stdout on a zero exit status, otherwise
/// a failure carrying the captured stderr.
pub fn probe_to_result(p: ProbeResult) -> (r: Result<String, ToolError>)
    ensures
        p.success ==> (r matches Ok(out) && out@ == p.stdout@),
        !p.success ==> (r matches Err(e) && e == ToolError::Failed(p.stderr)),
{
    if p.success {
        Ok(p.stdout)
    } else {
        Err(ToolError::Failed(p.stderr))
    }
}

/// The combined transcript of a shell run: stdout, then stderr, with a
/// line feed between them when both are present.
pub open spec fn shell_text(out: Seq<char>, err: Seq<char>) -> Seq<char> {
    if out.len() > 0 && err.len() > 0 {
        out + seq!['\n'] + err
    } else if err.len() == 0 {
        out
    } else {
        err
    }
}

/// What a finished shell passthrough means: the combined transcript,
/// as a success on a zero exit status and as an error otherwise; a
/// failed run with an empty transcript reports a fixed message.
pub fn shell_result(success: bool, stdout: String, stderr: String) -> (r: Result<String, String>)
    ensures
        ({
            let text = shell_text(stdout@, stderr@);
            if success {
                r matches Ok(t) && t@ == text
            } else if text.len() > 0 {
                r matches Err(t) && t@ == text
            } else {
                r matches Err(t) && t@ == "Command failed"@
            }
        }),
{
    let mut text = String::new();
    if !stdout.as_str().is_empty() {
        text.append(stdout.as_str());
    }
    if !stderr.as_str().is_empty() {
        if !text.as_str().is_empty() {
            proof {
                reveal_strlit("\n");
            }
            text.append("\n");
        }
        text.append(stderr.as_str());
    }
    proof {
        assert(text@ =~= shell_text(stdout@, stderr@));
    }
    if success {
        Ok(text)
    } else if !text.as_str().is_empty() {
        Err(text)
    } else {
        Err(String::from_str("Command failed"))
    }
}

} // verus!
