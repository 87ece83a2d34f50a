//! What a tool answers: a text result, flagged when it reports a failure,
//! or a protocol error; and how a finished `rapina` process is reported.
use vstd::prelude::*;
use vstd::utf8::{decode_utf8, valid_utf8};

verus! {

/// The kinds of protocol error that the tools raise.
#[derive(Debug, Clone, Copy, PartialEq, Eq, Structural)]
pub enum ToolErrorKind {
    /// The request's parameters are unusable.
    InvalidParams,
    /// The server failed to carry out the request.
    InternalError,
}

/// A protocol error: the request was not carried out.
#[derive(Debug)]
pub struct ToolError {
    pub kind: ToolErrorKind,
    pub message: String,
}

/// The text a tool answers with; `is_error` marks a result that reports a
/// failure of the work the tool ran.
#[derive(Debug)]
pub struct ToolOutput {
    pub text: String,
    pub is_error: bool,
}

/// What became of an attempt to run the `rapina` command line tool.
#[derive(Debug)]
pub enum CommandOutcome {
    /// The process could not be started; `reason` describes why.
    SpawnFailed { reason: String },
    /// The process ran to its end, with its exit status and captured output.
    Exited { success: bool, stdout: Vec<u8>, stderr: Vec<u8> },
}

/// The text that `String::from_utf8_lossy` makes of `bytes`.
pub uninterp spec fn lossy_utf8(bytes: Seq<u8>) -> Seq<char>;

/// Decodes `bytes` with `String::from_utf8_lossy`. Claimed: the result is a
/// function of the bytes, and valid UTF-8 is decoded as it stands (invalid
/// sequences become U+FFFD, which the contract leaves unsaid).
#[verifier::external_body]
fn decode_lossy(bytes: &[u8]) -> (r: String)
    ensures
        r@ == lossy_utf8(bytes@),
        valid_utf8(bytes@) ==> r@ == decode_utf8(bytes@),
{
    String::from_utf8_lossy(bytes).into_owned()
}

/// The text reported for a finished process: on success its standard output,
/// followed by its standard error under a separator when there is any; on
/// failure its standard output and a newline when there is any, then its
/// standard error.
pub open spec fn command_text(success: bool, out: Seq<char>, err: Seq<char>) -> Seq<char> {
    if success {
        if err.len() == 0 {
            out
        } else {
            out + "\n--- stderr ---\n"@ + err
        }
    } else {
        (if out.len() == 0 {
            Seq::empty()
        } else {
            out + "\n"@
        }) + err
    }
}

/// The result for a process that finished with the given status and output:
/// its text as `command_text` says, flagged as an error when it failed.
pub fn command_report(success: bool, stdout: &str, stderr: &str) -> (r: ToolOutput)
    ensures
        r.text@ == command_text(success, stdout@, stderr@),
        r.is_error == !success,
{
    if success {
        let mut text = String::from_str(stdout);
        if stderr.unicode_len() != 0 {
            text.append("\n--- stderr ---\n");
            text.append(stderr);
        }
        ToolOutput { text, is_error: false }
    } else {
        let mut text = String::new();
        if stdout.unicode_len() != 0 {
            text.append(stdout);
            text.append("\n");
        }
        text.append(stderr);
        ToolOutput { text, is_error: true }
    }
}

/// The error message for a process that could not be started.
pub open spec fn spawn_failure_message(reason: Seq<char>) -> Seq<char> {
    "Failed to execute rapina CLI: "@ + reason
}

/// The answer for an attempt to run the command line tool: an internal error
/// when it could not be started, else its report, with both outputs decoded
/// as lossy UTF-8.
pub fn command_result(outcome: CommandOutcome) -> (r: Result<ToolOutput, ToolError>)
    ensures
        match outcome {
            CommandOutcome::SpawnFailed { reason } => r matches Err(e) && e.kind is InternalError
                && e.message@ == spawn_failure_message(reason@),
            CommandOutcome::Exited { success, stdout, stderr } => r matches Ok(o) && o.text@
                == command_text(success, lossy_utf8(stdout@), lossy_utf8(stderr@)) && o.is_error
                == !success && (valid_utf8(stdout@) ==> lossy_utf8(stdout@) == decode_utf8(stdout@))
                && (valid_utf8(stderr@) ==> lossy_utf8(stderr@) == decode_utf8(stderr@)),
        },
{
    match outcome {
        CommandOutcome::SpawnFailed { reason } => {
            let message = String::from_str("Failed to execute rapina CLI: ").concat(reason.as_str());
            Err(ToolError { kind: ToolErrorKind::InternalError, message })
        },
        CommandOutcome::Exited { success, stdout, stderr } => {
            let out = decode_lossy(stdout.as_slice());
            let err = decode_lossy(stderr.as_slice());
            Ok(command_report(success, out.as_str(), err.as_str()))
        },
    }
}


/// A successful run is reported as its standard output, followed by nothing
/// when its standard error is empty; a failed run's report ends with its
/// standard error.
pub proof fn lemma_command_text_layout(success: bool, out: Seq<char>, err: Seq<char>)
    ensures
        success ==> command_text(success, out, err).subrange(0, out.len() as int) == out,
        success && err.len() == 0 ==> command_text(success, out, err) == out,
        !success ==> command_text(success, out, err).subrange(
            command_text(success, out, err).len() - err.len(),
            command_text(success, out, err).len() as int,
        ) == err,
{
    let t = command_text(success, out, err);
    if success {
        assert(t.subrange(0, out.len() as int) =~= out);
    } else {
        assert(t.subrange(t.len() - err.len(), t.len() as int) =~= err);
    }
}


/// The report of a finished run, case by case: a success shows its standard
/// output, followed by its standard error under a separator when there is
/// any; a failure shows its standard output and a newline when there is any
/// output, then its standard error.
pub proof fn lemma_command_text_cases(out: Seq<char>, err: Seq<char>)
    ensures
        command_text(true, out, Seq::empty()) == out,
        err.len() > 0 ==> command_text(true, out, err) == out + "\n--- stderr ---\n"@ + err,
        command_text(false, Seq::empty(), err) == err,
        out.len() > 0 ==> command_text(false, out, err) == out + "\n"@ + err,
{
    assert(Seq::<char>::empty() + err =~= err);
}

} // verus!
