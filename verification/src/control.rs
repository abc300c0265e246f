//! The retry state machine and the choice of the file to patch.
//!
//! Each build run ends in one of the outcomes of [`BuildOutcome`]; the
//! controller maps it to exactly one [`Action`]: report success and stop,
//! patch the file with the suggested value and run the build again, report
//! an unrelated failure and stop, or abort because the error output could
//! not be read as text. The caller runs the loop: it performs the action
//! and hands back the next outcome.

use vstd::prelude::*;

use crate::directive::extracted_limit;

verus! {

/// What one run of the build command ended in, as the caller observed it:
/// either the command exited successfully, or it failed and its captured
/// error output is `stderr`, with `stderr_is_text` saying whether those
/// bytes form valid text.
pub enum BuildOutcome {
    Succeeded,
    Failed { stderr_is_text: bool, stderr: Vec<u8> },
}

/// What the caller must do next.
pub enum Action {
    /// Log that the build succeeded and stop; the target file is untouched.
    ReportSuccess,
    /// Rewrite the target file's directive to the carried digit run, then
    /// run the build again.
    RetryWithLimit(Vec<u8>),
    /// Log that the failure was not a limit diagnostic and stop; the target
    /// file is untouched.
    ReportUnrelated,
    /// Abort: the build's error output was not readable as text.
    AbortBadStderr,
}

/// The transition relation of the controller: `a` is the one action owed
/// after outcome `o`.
pub open spec fn action_for(o: BuildOutcome, a: Action) -> bool {
    match o {
        BuildOutcome::Succeeded => a == Action::ReportSuccess,
        BuildOutcome::Failed { stderr_is_text, stderr } => if !stderr_is_text {
            a == Action::AbortBadStderr
        } else {
            match extracted_limit(stderr@) {
                Some(d) => a matches Action::RetryWithLimit(v) && v@ == d,
                None => a == Action::ReportUnrelated,
            }
        },
    }
}

/// Decide the next step from one build outcome. A failure whose error
/// output carries a limit diagnostic asks for a patch and another run; any
/// other failure ends the loop; unreadable error output aborts.
pub fn next_action(outcome: BuildOutcome) -> (a: Action)
    ensures
        action_for(outcome, a),
{
    match outcome {
        BuildOutcome::Succeeded => Action::ReportSuccess,
        BuildOutcome::Failed { stderr_is_text, stderr } => {
            if !stderr_is_text {
                Action::AbortBadStderr
            } else {
                match crate::directive::extract_limit(&stderr) {
                    Some(v) => Action::RetryWithLimit(v),
                    None => Action::ReportUnrelated,
                }
            }
        },
    }
}

/// Pick the file to patch: an explicit path wins; otherwise the
/// library-root file when it exists, else the program-root file. When both
/// root files exist and no explicit path is given, the library-root file is
/// chosen, so the program-root file stays untouched.
pub fn resolve_target<'a>(explicit: Option<&'a str>, lib_root_exists: bool) -> (r: &'a str)
    ensures
        explicit matches Some(p) ==> r == p,
        explicit is None && lib_root_exists ==> r@ == "src/lib.rs"@,
        explicit is None && !lib_root_exists ==> r@ == "src/main.rs"@,
{
    match explicit {
        Some(p) => p,
        None => if lib_root_exists {
            "src/lib.rs"
        } else {
            "src/main.rs"
        },
    }
}

} // verus!
