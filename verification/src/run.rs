//! The shell commands that run the two versions of the model.
use vstd::prelude::*;
use crate::text::{push_str, string_of};

verus! {

/// The command that runs the legacy regression test of `model_file` in `old_repo`.
pub open spec fn old_command(old_repo: Seq<char>, model_file: Seq<char>) -> Seq<char> {
    "cd "@ + old_repo + " && source .venv/bin/activate && cd model/ && oneil regression-test "@
        + model_file
}

/// The command that evaluates and then tests `model_file` in `new_repo`.
pub open spec fn new_command(new_repo: Seq<char>, model_file: Seq<char>) -> Seq<char> {
    "cd "@ + new_repo + " && source .venv/bin/activate && cd model/ && oneil eval "@ + model_file
        + " --print all --no-header --no-test-report && oneil test "@ + model_file
        + " --no-header --recursive"@
}

/// The shell command that runs the old model (see `old_command`); the caller runs it in
/// `old_repo` and reads what it prints.
pub fn run_old(old_repo: &str, model_file: &str) -> (r: String)
    ensures
        r@ == old_command(old_repo@, model_file@),
{
    let mut out: Vec<char> = Vec::new();
    push_str(&mut out, "cd ");
    push_str(&mut out, old_repo);
    push_str(&mut out, " && source .venv/bin/activate && cd model/ && oneil regression-test ");
    push_str(&mut out, model_file);
    string_of(out.as_slice())
}

/// The shell command that runs the new model (see `new_command`); the caller runs it in
/// `new_repo` and reads what it prints.
pub fn run_new(new_repo: &str, model_file: &str) -> (r: String)
    ensures
        r@ == new_command(new_repo@, model_file@),
{
    let mut out: Vec<char> = Vec::new();
    push_str(&mut out, "cd ");
    push_str(&mut out, new_repo);
    push_str(&mut out, " && source .venv/bin/activate && cd model/ && oneil eval ");
    push_str(&mut out, model_file);
    push_str(&mut out, " --print all --no-header --no-test-report && oneil test ");
    push_str(&mut out, model_file);
    push_str(&mut out, " --no-header --recursive");
    string_of(out.as_slice())
}

/// The text with its ANSI escape sequences removed, as anstream's `strip_str` gives it.
pub uninterp spec fn ansi_stripped(s: Seq<char>) -> Seq<char>;

/// Calls anstream's `adapter::strip_str` and displays what it gives: the text without its
/// ANSI escape sequences. What exactly is removed is not stated here; the result is named
/// `ansi_stripped` of the text, on which alone it depends.
#[verifier::external_body]
fn strip_ansi(s: &str) -> (r: String)
    ensures
        r@ == ansi_stripped(s@),
{
    anstream::adapter::strip_str(s).to_string()
}

/// Why a command gave no output to read.
#[derive(Clone, Copy, Debug, PartialEq, Eq, Structural)]
pub enum RunError {
    /// The command failed, with this exit code (`-1` where it has none).
    Failed { code: i32 },
    /// What the command printed is not UTF-8.
    NotUtf8,
}

/// The output of a command to read: where it succeeded and printed UTF-8 text, that text
/// without escape sequences; else why not. `stdout` is the printed text where it is UTF-8.
pub fn command_output(success: bool, code: Option<i32>, stdout: Option<String>) -> (r: Result<
    String,
    RunError,
>)
    ensures
        !success ==> r == Err::<String, RunError>(
            RunError::Failed {
                code: match code {
                    Some(c) => c,
                    None => -1i32,
                },
            },
        ),
        success && stdout is None ==> r == Err::<String, RunError>(RunError::NotUtf8),
        success && stdout is Some ==> r is Ok && (r->Ok_0)@ == ansi_stripped((stdout->Some_0)@),
{
    if !success {
        let c = match code {
            Some(c) => c,
            None => -1,
        };
        return Err(RunError::Failed { code: c });
    }
    match stdout {
        Some(text) => Ok(strip_ansi(text.as_str())),
        None => Err(RunError::NotUtf8),
    }
}

} // verus!
