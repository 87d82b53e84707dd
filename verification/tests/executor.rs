use shell::builtins::{Builtin, BuiltinRegistry};
use shell::executor::{captured_stream, captured_text, command_not_found, dispatch, failed_to_start, job_started_line, Dispatch};
use shell::parser::parse;
use shell::tokenizer::tokenize;

#[test]
fn dispatch_by_name_and_background() {
    let reg = BuiltinRegistry::new();
    assert_eq!(dispatch(&parse(tokenize("")), &reg), Dispatch::Nothing);
    assert_eq!(dispatch(&parse(tokenize("echo hi")), &reg), Dispatch::Builtin(Builtin::Echo));
    assert_eq!(dispatch(&parse(tokenize("jobs &")), &reg), Dispatch::BackgroundBuiltin(Builtin::Jobs));
    assert_eq!(dispatch(&parse(tokenize("ls -l")), &reg), Dispatch::External);
    assert_eq!(dispatch(&parse(tokenize("sleep 1 &")), &reg), Dispatch::BackgroundExternal);
    // Only the first command of a pipeline decides.
    assert_eq!(dispatch(&parse(tokenize("ls | echo")), &reg), Dispatch::External);
    assert_eq!(dispatch(&parse(tokenize("echo a | wc")), &reg), Dispatch::Builtin(Builtin::Echo));
    assert_eq!(dispatch(&parse(tokenize("ls & echo")), &reg), Dispatch::BackgroundExternal);
}

#[test]
fn captured_streams_are_trimmed() {
    assert_eq!(captured_stream(b""), None);
    assert_eq!(captured_stream(b"hello\n"), Some("hello".to_string()));
    assert_eq!(captured_stream(b"\n"), Some(String::new()));
    assert_eq!(captured_stream(b"a\xffb"), Some("a\u{fffd}b".to_string()));
    assert_eq!(captured_text(false, "x  \n"), Some("x".to_string()));
    assert_eq!(captured_text(true, "x"), None);
}

#[test]
fn messages_are_formatted() {
    assert_eq!(command_not_found("frob"), "frob: command not found");
    assert_eq!(failed_to_start("frob", "denied"), "frob: failed to start (denied)");
    assert_eq!(job_started_line(3, 4321), "[3] 4321");
    assert_eq!(job_started_line(0, 0), "[0] 0");
    assert_eq!(job_started_line(u32::MAX, 10), format!("[{}] 10", u32::MAX));
}
