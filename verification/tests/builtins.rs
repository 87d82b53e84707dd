use shell::builtins::{
    builtin_complete, builtin_echo, builtin_exit, builtin_type, cd_outcome, cd_target, type_needs_path,
    Builtin, BuiltinRegistry, BuiltinResult,
};
use shell::context::RuntimeContext;

fn streams(r: BuiltinResult) -> (Option<String>, Option<String>) {
    match r {
        BuiltinResult::Output(o) => (o.stdout, o.stderr),
        BuiltinResult::Exit => panic!("unexpected exit"),
    }
}

fn strings(v: &[&str]) -> Vec<String> {
    v.iter().map(|s| s.to_string()).collect()
}

#[test]
fn registry_default_builtins() {
    let reg = BuiltinRegistry::new();
    assert_eq!(reg.names(), vec!["cd", "complete", "echo", "exit", "jobs", "pwd", "type"]);
    assert_eq!(reg.get("echo"), Some(Builtin::Echo));
    assert_eq!(reg.get("jobs"), Some(Builtin::Jobs));
    assert_eq!(reg.get("ls"), None);
    assert!(reg.is_builtin("cd"));
    assert!(!reg.is_builtin("c"));
}

#[test]
fn registry_register_replaces_and_adds() {
    let mut reg = BuiltinRegistry::new();
    reg.register("echo", Builtin::Pwd);
    assert_eq!(reg.get("echo"), Some(Builtin::Pwd));
    reg.register("alias", Builtin::Exit);
    assert_eq!(reg.names()[0], "alias");
    assert_eq!(reg.names().len(), 8);
}

#[test]
fn context_takes_sorted_names() {
    let reg = BuiltinRegistry::new();
    let ctx = RuntimeContext::new(&reg);
    assert_eq!(ctx.builtin_names, strings(&["cd", "complete", "echo", "exit", "jobs", "pwd", "type"]));
    assert_eq!(ctx.completion.len(), 0);
    assert!(ctx.jobs.job_table.is_empty());
}

#[test]
fn echo_joins_arguments() {
    let ctx = RuntimeContext::new(&BuiltinRegistry::new());
    assert_eq!(streams(builtin_echo(&strings(&["hello", "world"]), &ctx)), (Some("hello world".to_string()), None));
    assert_eq!(streams(builtin_echo(&[], &ctx)), (Some(String::new()), None));
}

#[test]
fn exit_asks_to_stop() {
    let ctx = RuntimeContext::new(&BuiltinRegistry::new());
    assert!(matches!(builtin_exit(&[], &ctx), BuiltinResult::Exit));
}

#[test]
fn type_reports_builtin_path_or_missing() {
    let ctx = RuntimeContext::new(&BuiltinRegistry::new());
    assert_eq!(streams(builtin_type(&strings(&["echo"]), &ctx, None)).0.unwrap(), "echo is a shell builtin");
    assert_eq!(
        streams(builtin_type(&strings(&["ls"]), &ctx, Some("/bin/ls".to_string()))).0.unwrap(),
        "ls is /bin/ls"
    );
    assert_eq!(streams(builtin_type(&strings(&["nope"]), &ctx, None)).0.unwrap(), "nope: not found");
    assert_eq!(streams(builtin_type(&strings(&["no", "pe"]), &ctx, None)).0.unwrap(), "no pe: not found");
}

#[test]
fn complete_register_print_remove() {
    let mut ctx = RuntimeContext::new(&BuiltinRegistry::new());
    assert_eq!(
        streams(builtin_complete(&strings(&["-p", "git"]), &mut ctx)),
        (None, Some("complete: git: no completion specification".to_string()))
    );
    assert_eq!(streams(builtin_complete(&strings(&["-C", "/usr/bin/gitc", "git"]), &mut ctx)), (None, None));
    assert_eq!(
        streams(builtin_complete(&strings(&["-p", "git"]), &mut ctx)),
        (Some("complete -C '/usr/bin/gitc' git".to_string()), None)
    );
    assert_eq!(streams(builtin_complete(&strings(&["-r", "git"]), &mut ctx)), (None, None));
    assert_eq!(
        streams(builtin_complete(&strings(&["-p", "git"]), &mut ctx)).1.unwrap(),
        "complete: git: no completion specification"
    );
    assert_eq!(streams(builtin_complete(&strings(&["-x"]), &mut ctx)), (None, None));
}

#[test]
fn cd_target_and_outcome() {
    let (raw, expanded) = cd_target(&[], Some("/home/me"));
    assert_eq!((raw.as_str(), expanded.as_str()), ("~", "/home/me"));
    let (raw, expanded) = cd_target(&strings(&["~/src"]), Some("/home/me"));
    assert_eq!((raw.as_str(), expanded.as_str()), ("~/src", "/home/me/src"));
    let (raw, expanded) = cd_target(&strings(&["/tmp", "x"]), None);
    assert_eq!((raw.as_str(), expanded.as_str()), ("/tmp", "/tmp"));
    assert_eq!(streams(cd_outcome("/tmp", true)), (None, None));
    assert_eq!(
        streams(cd_outcome("/nowhere", false)),
        (None, Some("cd: /nowhere: No such file or directory".to_string()))
    );
}

#[test]
fn type_searches_path_only_for_non_builtins() {
    let ctx = RuntimeContext::new(&BuiltinRegistry::new());
    assert!(!type_needs_path(&strings(&["echo"]), &ctx));
    assert!(!type_needs_path(&strings(&["jobs"]), &ctx));
    assert!(type_needs_path(&strings(&["ls"]), &ctx));
    assert!(type_needs_path(&strings(&["echo", "x"]), &ctx));
}
