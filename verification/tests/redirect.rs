use shell::parser::Redirect;
use shell::redirect::{plan_redirects, CmdOutput, OutputAction};
use shell::tokenizer::RedirectMode;

fn redir(fd: u32, mode: RedirectMode, target: &str) -> Redirect {
    Redirect { fd, mode, target: target.to_string() }
}

#[test]
fn cmd_output_constructors() {
    let o = CmdOutput::out("x".to_string());
    assert_eq!((o.stdout, o.stderr), (Some("x".to_string()), None));
    let e = CmdOutput::err("y".to_string());
    assert_eq!((e.stdout, e.stderr), (None, Some("y".to_string())));
    let n = CmdOutput::empty();
    assert!(n.stdout.is_none() && n.stderr.is_none());
    let d = CmdOutput::default();
    assert!(d.stdout.is_none() && d.stderr.is_none());
}

#[test]
fn plan_without_redirects_prints() {
    let out = CmdOutput { stdout: Some("a".to_string()), stderr: Some("b".to_string()) };
    let plan = plan_redirects(&out, &[]);
    assert_eq!(plan.len(), 2);
    assert!(matches!(&plan[0], OutputAction::PrintStdout(s) if s == "a"));
    assert!(matches!(&plan[1], OutputAction::PrintStderr(s) if s == "b"));
}

#[test]
fn plan_redirected_stdout_goes_to_file() {
    let out = CmdOutput { stdout: Some("a".to_string()), stderr: Some("b".to_string()) };
    let plan = plan_redirects(&out, &[redir(1, RedirectMode::Truncate, "f.txt")]);
    assert_eq!(plan.len(), 2);
    assert!(matches!(&plan[0], OutputAction::WriteFile { target, content, mode: RedirectMode::Truncate }
        if target == "f.txt" && content == "a"));
    assert!(matches!(&plan[1], OutputAction::PrintStderr(s) if s == "b"));
}

#[test]
fn plan_missing_stream_writes_empty_file() {
    let out = CmdOutput::out("a".to_string());
    let plan = plan_redirects(&out, &[redir(2, RedirectMode::Append, "e.log"), redir(7, RedirectMode::Truncate, "x")]);
    assert_eq!(plan.len(), 2);
    assert!(matches!(&plan[0], OutputAction::WriteFile { target, content, mode: RedirectMode::Append }
        if target == "e.log" && content.is_empty()));
    assert!(matches!(&plan[1], OutputAction::PrintStdout(s) if s == "a"));
}

#[test]
fn plan_two_redirects_of_stdout_write_both() {
    let out = CmdOutput::out("a".to_string());
    let plan = plan_redirects(&out, &[redir(1, RedirectMode::Truncate, "x"), redir(1, RedirectMode::Append, "y")]);
    assert_eq!(plan.len(), 2);
    assert!(matches!(&plan[1], OutputAction::WriteFile { target, .. } if target == "y"));
}
