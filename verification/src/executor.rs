use vstd::prelude::*;

use crate::builtins::{Builtin, BuiltinRegistry};
use crate::parser::Pipeline;
use crate::text::{decimal, decimal_string, push_char, push_str, trim_end, trim_end_string};

verus! {

/// How the first command of a pipeline is to be run.
#[derive(Debug, Clone, Copy, PartialEq, Eq, Structural)]
pub enum Dispatch {
    /// The pipeline is empty: nothing to run.
    Nothing,
    /// A builtin, on a thread of its own.
    BackgroundBuiltin(Builtin),
    /// A builtin, in the shell.
    Builtin(Builtin),
    /// An external program, started and left running as a job.
    BackgroundExternal,
    /// An external program, waited for, its output captured.
    External,
}

/// How the pipeline is run: only its first command is; a builtin of that
/// name goes first, then an external program; `is_background` chooses
/// between running in the background and waiting.
pub open spec fn spec_dispatch(p: Seq<crate::parser::CommandSpec>, builtins: Map<Seq<char>, Builtin>) -> Dispatch {
    if p.len() == 0 {
        Dispatch::Nothing
    } else {
        let cmd = p[0];
        if builtins.contains_key(cmd.program) {
            if cmd.is_background {
                Dispatch::BackgroundBuiltin(builtins[cmd.program])
            } else {
                Dispatch::Builtin(builtins[cmd.program])
            }
        } else if cmd.is_background {
            Dispatch::BackgroundExternal
        } else {
            Dispatch::External
        }
    }
}

/// Decide how to run a [`Pipeline`].
pub fn dispatch(pipeline: &Pipeline, registry: &BuiltinRegistry) -> (d: Dispatch)
    ensures
        d == spec_dispatch(pipeline@, registry@),
{
    if pipeline.commands.len() == 0 {
        return Dispatch::Nothing;
    }
    let cmd = &pipeline.commands[0];
    match (registry.get(cmd.program.as_str()), cmd.is_background) {
        (Some(b), true) => Dispatch::BackgroundBuiltin(b),
        (Some(b), false) => Dispatch::Builtin(b),
        (None, true) => Dispatch::BackgroundExternal,
        (None, false) => Dispatch::External,
    }
}

/// The text of an output stream, as decoded from its bytes with invalid
/// sequences replaced; a function of the bytes alone.
pub uninterp spec fn lossy_utf8(bytes: Seq<u8>) -> Seq<char>;

/// The text of `bytes`, with each invalid UTF-8 sequence replaced by the
/// replacement character.
///
/// Trusted: calls `String::from_utf8_lossy`. Its result is named by
/// `lossy_utf8`; what is stated of it besides is that valid UTF-8 is decoded
/// as such, which the function's documentation says. How invalid sequences
/// are replaced is left unsaid.
#[verifier::external_body]
pub(crate) fn utf8_lossy(bytes: &[u8]) -> (r: String)
    ensures
        r@ == lossy_utf8(bytes@),
        vstd::utf8::valid_utf8(bytes@) ==> r@ == vstd::utf8::decode_utf8(bytes@),
{
    String::from_utf8_lossy(bytes).into_owned()
}

/// What becomes of a captured stream, given whether it was empty and its
/// decoded text: nothing for an empty stream, else the text without its
/// trailing white space.
pub fn captured_text(raw_is_empty: bool, decoded: &str) -> (r: Option<String>)
    ensures
        match r {
            Some(t) => !raw_is_empty && t@ == trim_end(decoded@),
            None => raw_is_empty,
        },
{
    if raw_is_empty {
        None
    } else {
        Some(trim_end_string(decoded))
    }
}

/// The captured output of a stream of a finished external program.
pub fn captured_stream(raw: &[u8]) -> (r: Option<String>)
    ensures
        match r {
            Some(t) => raw@.len() > 0 && t@ == trim_end(lossy_utf8(raw@)),
            None => raw@.len() == 0,
        },
{
    let decoded = utf8_lossy(raw);
    captured_text(raw.len() == 0, decoded.as_str())
}

/// `command: command not found`.
pub fn command_not_found(command: &str) -> (r: String)
    ensures
        r@ == command@ + seq![':', ' ', 'c', 'o', 'm', 'm', 'a', 'n', 'd', ' ', 'n', 'o', 't', ' ', 'f', 'o', 'u', 'n', 'd'],
{
    let mut r = String::new();
    push_str(&mut r, command);
    proof {
        reveal_strlit(": command not found");
        assert(": command not found"@ =~= seq![':', ' ', 'c', 'o', 'm', 'm', 'a', 'n', 'd', ' ', 'n', 'o', 't', ' ', 'f', 'o', 'u', 'n', 'd']);
    }
    push_str(&mut r, ": command not found");
    r
}

/// `command: failed to start (reason)`.
pub fn failed_to_start(command: &str, reason: &str) -> (r: String)
    ensures
        r@ == command@ + seq![':', ' ', 'f', 'a', 'i', 'l', 'e', 'd', ' ', 't', 'o', ' ', 's', 't', 'a', 'r', 't', ' ', '('] + reason@ + seq![')'],
{
    let mut r = String::new();
    push_str(&mut r, command);
    proof {
        reveal_strlit(": failed to start (");
        assert(": failed to start ("@ =~= seq![':', ' ', 'f', 'a', 'i', 'l', 'e', 'd', ' ', 't', 'o', ' ', 's', 't', 'a', 'r', 't', ' ', '(']);
    }
    push_str(&mut r, ": failed to start (");
    push_str(&mut r, reason);
    push_char(&mut r, ')');
    r
}

/// `[job_id] pid`, the line announcing a job started in the background.
pub fn job_started_line(job_id: u32, pid: u32) -> (r: String)
    ensures
        r@ == seq!['['] + decimal(job_id as nat) + seq![']', ' '] + decimal(pid as nat),
{
    let mut r = String::new();
    push_char(&mut r, '[');
    let id = decimal_string(job_id);
    push_str(&mut r, id.as_str());
    push_char(&mut r, ']');
    push_char(&mut r, ' ');
    let p = decimal_string(pid);
    push_str(&mut r, p.as_str());
    assert(r@ =~= seq!['['] + decimal(job_id as nat) + seq![']', ' '] + decimal(pid as nat));
    r
}

} // verus!
