use vstd::prelude::*;

use crate::parser::{Redirect, RedirectSpec};
use crate::tokenizer::RedirectMode;

verus! {

/// The output of any command (builtin or external).
///
/// Every command produces a `CmdOutput`. The executor then applies
/// redirections uniformly.
#[derive(Debug)]
pub struct CmdOutput {
    pub stdout: Option<String>,
    pub stderr: Option<String>,
}

/// The text of an optional string.
pub open spec fn opt_view(o: Option<String>) -> Option<Seq<char>> {
    match o {
        Some(s) => Some(s@),
        None => None,
    }
}

impl CmdOutput {
    /// A successful output with text on stdout.
    pub fn out(text: String) -> (r: Self)
        ensures
            opt_view(r.stdout) == Some(text@),
            r.stderr is None,
    {
        Self { stdout: Some(text), stderr: None }
    }

    /// An error output with text on stderr.
    pub fn err(text: String) -> (r: Self)
        ensures
            r.stdout is None,
            opt_view(r.stderr) == Some(text@),
    {
        Self { stdout: None, stderr: Some(text) }
    }

    /// Empty output (no stdout, no stderr).
    pub fn empty() -> (r: Self)
        ensures
            r.stdout is None,
            r.stderr is None,
    {
        Self { stdout: None, stderr: None }
    }
}

impl Default for CmdOutput {
    fn default() -> (r: Self)
        ensures
            r.stdout is None,
            r.stderr is None,
    {
        Self::empty()
    }
}

/// One step of delivering a command's output.
#[derive(Debug)]
pub enum OutputAction {
    /// Write `content` to the file `target`, replacing or appending.
    WriteFile { target: String, content: String, mode: RedirectMode },
    /// Print the text, and a newline, on standard output.
    PrintStdout(String),
    /// Print the text, and a newline, on standard error.
    PrintStderr(String),
}

/// An [`OutputAction`] as values.
pub enum ActionSpec {
    WriteFile { target: Seq<char>, content: Seq<char>, mode: RedirectMode },
    PrintStdout(Seq<char>),
    PrintStderr(Seq<char>),
}

impl View for OutputAction {
    type V = ActionSpec;

    open spec fn view(&self) -> ActionSpec {
        match self {
            OutputAction::WriteFile { target, content, mode } => ActionSpec::WriteFile {
                target: target@,
                content: content@,
                mode: *mode,
            },
            OutputAction::PrintStdout(s) => ActionSpec::PrintStdout(s@),
            OutputAction::PrintStderr(s) => ActionSpec::PrintStderr(s@),
        }
    }
}

/// The file write for one redirection: descriptor 1 writes the standard
/// output (or nothing), descriptor 2 the standard error (or nothing); other
/// descriptors write nothing.
pub open spec fn write_for(
    out: Option<Seq<char>>,
    err: Option<Seq<char>>,
    r: RedirectSpec,
) -> Seq<ActionSpec> {
    if r.fd == 1 {
        seq![
            ActionSpec::WriteFile {
                target: r.target,
                content: match out {
                    Some(s) => s,
                    None => Seq::empty(),
                },
                mode: r.mode,
            },
        ]
    } else if r.fd == 2 {
        seq![
            ActionSpec::WriteFile {
                target: r.target,
                content: match err {
                    Some(s) => s,
                    None => Seq::empty(),
                },
                mode: r.mode,
            },
        ]
    } else {
        Seq::empty()
    }
}

/// The file writes for `redirects`, in order.
pub open spec fn file_writes(
    out: Option<Seq<char>>,
    err: Option<Seq<char>>,
    redirects: Seq<RedirectSpec>,
) -> Seq<ActionSpec>
    decreases redirects.len(),
{
    if redirects.len() == 0 {
        Seq::empty()
    } else {
        file_writes(out, err, redirects.drop_last()) + write_for(out, err, redirects.last())
    }
}

/// Some redirection in `redirects` is of descriptor `fd`.
pub open spec fn redirects_fd(redirects: Seq<RedirectSpec>, fd: u32) -> bool {
    exists|i: int| 0 <= i < redirects.len() && #[trigger] redirects[i].fd == fd
}

/// What delivering an output takes: the file writes of the redirections,
/// then printing each stream that no redirection took.
pub open spec fn output_plan(
    out: Option<Seq<char>>,
    err: Option<Seq<char>>,
    redirects: Seq<RedirectSpec>,
) -> Seq<ActionSpec> {
    file_writes(out, err, redirects) + (if !redirects_fd(redirects, 1) && out is Some {
        seq![ActionSpec::PrintStdout(out->0)]
    } else {
        Seq::empty()
    }) + (if !redirects_fd(redirects, 2) && err is Some {
        seq![ActionSpec::PrintStderr(err->0)]
    } else {
        Seq::empty()
    })
}

fn copy_or_empty(s: &Option<String>) -> (r: String)
    ensures
        r@ == match opt_view(*s) {
            Some(t) => t,
            None => Seq::empty(),
        },
{
    match s {
        Some(t) => t.clone(),
        None => String::new(),
    }
}

/// The steps that deliver `output` under the given redirections: file
/// writes for redirected streams, in order, and printing of the streams
/// that were not redirected.
pub fn plan_redirects(output: &CmdOutput, redirects: &[Redirect]) -> (plan: Vec<OutputAction>)
    ensures
        plan@.map_values(|a: OutputAction| a@) == output_plan(
            opt_view(output.stdout),
            opt_view(output.stderr),
            redirects@.map_values(|r: Redirect| r@),
        ),
{
    let ghost out = opt_view(output.stdout);
    let ghost err = opt_view(output.stderr);
    let ghost rs = redirects@.map_values(|r: Redirect| r@);
    let mut plan: Vec<OutputAction> = Vec::new();
    let mut stdout_redirected = false;
    let mut stderr_redirected = false;
    let mut i: usize = 0;
    assert(rs.take(0) =~= Seq::<RedirectSpec>::empty());
    assert(plan@.map_values(|a: OutputAction| a@) =~= Seq::<ActionSpec>::empty());
    while i < redirects.len()
        invariant
            i <= redirects@.len(),
            rs == redirects@.map_values(|r: Redirect| r@),
            out == opt_view(output.stdout),
            err == opt_view(output.stderr),
            plan@.map_values(|a: OutputAction| a@) == file_writes(out, err, rs.take(i as int)),
            stdout_redirected == redirects_fd(rs.take(i as int), 1),
            stderr_redirected == redirects_fd(rs.take(i as int), 2),
        decreases redirects@.len() - i,
    {
        let ghost prev = plan@.map_values(|a: OutputAction| a@);
        let redir = &redirects[i];
        assert(rs.take(i + 1).drop_last() =~= rs.take(i as int));
        assert(rs.take(i + 1).last() == redir@);
        if redir.fd == 1 {
            stdout_redirected = true;
            plan.push(
                OutputAction::WriteFile {
                    target: redir.target.clone(),
                    content: copy_or_empty(&output.stdout),
                    mode: redir.mode,
                },
            );
        } else if redir.fd == 2 {
            stderr_redirected = true;
            plan.push(
                OutputAction::WriteFile {
                    target: redir.target.clone(),
                    content: copy_or_empty(&output.stderr),
                    mode: redir.mode,
                },
            );
        }
        assert(plan@.map_values(|a: OutputAction| a@) =~= prev + write_for(out, err, redir@));
        assert forall|fd: u32| #![auto] redirects_fd(rs.take(i + 1), fd) == (redir.fd == fd
            || redirects_fd(rs.take(i as int), fd)) by {
            if redirects_fd(rs.take(i + 1), fd) && redir.fd != fd {
                let k = choose|k: int|
                    0 <= k < rs.take(i + 1).len() && #[trigger] rs.take(i + 1)[k].fd == fd;
                assert(rs.take(i as int)[k] == rs.take(i + 1)[k]);
            }
            if redirects_fd(rs.take(i as int), fd) {
                let k = choose|k: int|
                    0 <= k < rs.take(i as int).len() && #[trigger] rs.take(i as int)[k].fd == fd;
                assert(rs.take(i as int)[k] == rs.take(i + 1)[k]);
            }
            if redir.fd == fd {
                assert(rs.take(i + 1)[i as int].fd == fd);
            }
        }
        i = i + 1;
    }
    assert(rs.take(i as int) =~= rs);
    let ghost writes = plan@.map_values(|a: OutputAction| a@);
    // Print anything that wasn't redirected.
    if !stdout_redirected {
        match &output.stdout {
            Some(s) => plan.push(OutputAction::PrintStdout(s.clone())),
            None => {},
        }
    }
    let ghost with_out = plan@.map_values(|a: OutputAction| a@);
    assert(with_out =~= writes + (if !redirects_fd(rs, 1) && out is Some {
        seq![ActionSpec::PrintStdout(out->0)]
    } else {
        Seq::empty()
    }));
    if !stderr_redirected {
        match &output.stderr {
            Some(e) => plan.push(OutputAction::PrintStderr(e.clone())),
            None => {},
        }
    }
    assert(plan@.map_values(|a: OutputAction| a@) =~= with_out + (if !redirects_fd(rs, 2)
        && err is Some {
        seq![ActionSpec::PrintStderr(err->0)]
    } else {
        Seq::empty()
    }));
    plan
}


/// The file writes are all writes.
proof fn lemma_writes_only_write(
    out: Option<Seq<char>>,
    err: Option<Seq<char>>,
    redirects: Seq<RedirectSpec>,
)
    ensures
        forall|i: int|
            0 <= i < file_writes(out, err, redirects).len() ==> (#[trigger] file_writes(
                out,
                err,
                redirects,
            )[i]) is WriteFile,
    decreases redirects.len(),
{
    if redirects.len() > 0 {
        lemma_writes_only_write(out, err, redirects.drop_last());
        let a = file_writes(out, err, redirects.drop_last());
        let b = write_for(out, err, redirects.last());
        assert forall|i: int| 0 <= i < (a + b).len() implies (#[trigger] (a + b)[i]) is WriteFile by {
            if i < a.len() {
                assert((a + b)[i] == a[i]);
            } else {
                assert((a + b)[i] == b[i - a.len()]);
            }
        }
    }
}

/// Law: a stream that some redirection takes is never printed, and a
/// stream that no redirection takes is printed exactly when the command
/// produced it.
pub proof fn lemma_redirected_streams_not_printed(
    out: Option<Seq<char>>,
    err: Option<Seq<char>>,
    redirects: Seq<RedirectSpec>,
)
    ensures
        ({
            let plan = output_plan(out, err, redirects);
            &&& (exists|i: int| 0 <= i < plan.len() && #[trigger] plan[i] is PrintStdout) <==> (
            !redirects_fd(redirects, 1) && out is Some)
            &&& (exists|i: int| 0 <= i < plan.len() && #[trigger] plan[i] is PrintStderr) <==> (
            !redirects_fd(redirects, 2) && err is Some)
        }),
{
    lemma_writes_only_write(out, err, redirects);
    let w = file_writes(out, err, redirects);
    let so: Seq<ActionSpec> = if !redirects_fd(redirects, 1) && out is Some {
        seq![ActionSpec::PrintStdout(out->0)]
    } else {
        Seq::empty()
    };
    let se: Seq<ActionSpec> = if !redirects_fd(redirects, 2) && err is Some {
        seq![ActionSpec::PrintStderr(err->0)]
    } else {
        Seq::empty()
    };
    let plan = output_plan(out, err, redirects);
    assert(plan == w + so + se);
    if exists|i: int| 0 <= i < plan.len() && #[trigger] plan[i] is PrintStdout {
        let i = choose|i: int| 0 <= i < plan.len() && #[trigger] plan[i] is PrintStdout;
        if i < w.len() {
            assert(plan[i] == w[i]);
        } else if i < w.len() + so.len() {
            assert(plan[i] == so[i - w.len()]);
        } else {
            assert(plan[i] == se[i - w.len() - so.len()]);
        }
    }
    if !redirects_fd(redirects, 1) && out is Some {
        assert(plan[w.len() as int] is PrintStdout);
    }
    if exists|i: int| 0 <= i < plan.len() && #[trigger] plan[i] is PrintStderr {
        let i = choose|i: int| 0 <= i < plan.len() && #[trigger] plan[i] is PrintStderr;
        if i < w.len() {
            assert(plan[i] == w[i]);
        } else if i < w.len() + so.len() {
            assert(plan[i] == so[i - w.len()]);
        } else {
            assert(plan[i] == se[i - w.len() - so.len()]);
        }
    }
    if !redirects_fd(redirects, 2) && err is Some {
        assert(plan[(w.len() + so.len()) as int] is PrintStderr);
    }
}

/// The content written for a redirection of descriptor `fd`: the standard
/// output for 1, the standard error otherwise, or nothing when the command
/// gave none.
pub open spec fn stream_of(out: Option<Seq<char>>, err: Option<Seq<char>>, fd: u32) -> Seq<char> {
    let s = if fd == 1 {
        out
    } else {
        err
    };
    match s {
        Some(t) => t,
        None => Seq::empty(),
    }
}

proof fn lemma_file_writes_each(
    out: Option<Seq<char>>,
    err: Option<Seq<char>>,
    redirects: Seq<RedirectSpec>,
)
    requires
        forall|i: int| 0 <= i < redirects.len() ==> #[trigger] redirects[i].fd == 1 || redirects[i].fd
            == 2,
    ensures
        file_writes(out, err, redirects).len() == redirects.len(),
        forall|i: int|
            0 <= i < redirects.len() ==> #[trigger] file_writes(out, err, redirects)[i]
                == (ActionSpec::WriteFile {
                target: redirects[i].target,
                content: stream_of(out, err, redirects[i].fd),
                mode: redirects[i].mode,
            }),
    decreases redirects.len(),
{
    if redirects.len() > 0 {
        let front = redirects.drop_last();
        assert forall|i: int| 0 <= i < front.len() implies #[trigger] front[i].fd == 1 || front[i].fd
            == 2 by {
            assert(front[i] == redirects[i]);
        }
        lemma_file_writes_each(out, err, front);
        let a = file_writes(out, err, front);
        let b = write_for(out, err, redirects.last());
        let n = redirects.len() - 1;
        assert(redirects[n].fd == 1 || redirects[n].fd == 2);
        assert(file_writes(out, err, redirects) == a + b);
        assert forall|i: int| 0 <= i < redirects.len() implies #[trigger] file_writes(
            out,
            err,
            redirects,
        )[i] == (ActionSpec::WriteFile {
            target: redirects[i].target,
            content: stream_of(out, err, redirects[i].fd),
            mode: redirects[i].mode,
        }) by {
            if i < n {
                assert((a + b)[i] == a[i]);
                assert(front[i] == redirects[i]);
            } else {
                assert((a + b)[i] == b[0]);
            }
        }
    }
}

/// Law: delivering an output begins with one file write per redirection,
/// in the order of the redirections; the write for a redirection goes to
/// its target, in its mode (appending for `>>`, replacing for `>`), with
/// the stream of its descriptor.
pub proof fn lemma_plan_writes_follow_redirects(
    out: Option<Seq<char>>,
    err: Option<Seq<char>>,
    redirects: Seq<RedirectSpec>,
)
    requires
        forall|i: int| 0 <= i < redirects.len() ==> #[trigger] redirects[i].fd == 1 || redirects[i].fd
            == 2,
    ensures
        output_plan(out, err, redirects).len() >= redirects.len(),
        forall|i: int|
            0 <= i < redirects.len() ==> #[trigger] output_plan(out, err, redirects)[i]
                == (ActionSpec::WriteFile {
                target: redirects[i].target,
                content: stream_of(out, err, redirects[i].fd),
                mode: redirects[i].mode,
            }),
{
    lemma_file_writes_each(out, err, redirects);
    let w = file_writes(out, err, redirects);
    let plan = output_plan(out, err, redirects);
    let rest = plan.skip(w.len() as int);
    assert(plan =~= w + rest);
    assert forall|i: int| 0 <= i < redirects.len() implies #[trigger] output_plan(
        out,
        err,
        redirects,
    )[i] == (ActionSpec::WriteFile {
        target: redirects[i].target,
        content: stream_of(out, err, redirects[i].fd),
        mode: redirects[i].mode,
    }) by {
        assert(plan[i] == w[i]);
    }
}

} // verus!
