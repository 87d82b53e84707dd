use shell::builtins::BuiltinRegistry;
use shell::context::RuntimeContext;
use shell::builtins::builtin_complete;
use shell::readline::{
    append_completion_output, backspace, build_completion_trie, build_custom_trie, classify_key,
    completion_context, is_completion_exist, next_tab_count, split_prefix_dir, tab_executable, tab_files, tab_target,
    Feedback, Key, TabTarget,
};

fn strings(v: &[&str]) -> Vec<String> {
    v.iter().map(|s| s.to_string()).collect()
}

#[test]
fn keys_are_classified() {
    assert_eq!(classify_key(b'\t'), Key::Tab);
    assert_eq!(classify_key(b'\r'), Key::Enter);
    assert_eq!(classify_key(b'\n'), Key::Enter);
    assert_eq!(classify_key(127), Key::Backspace);
    assert_eq!(classify_key(8), Key::Backspace);
    assert_eq!(classify_key(b'a'), Key::Char('a'));
    assert_eq!(classify_key(200), Key::Char('\u{c8}'));
    assert_eq!(classify_key(3), Key::Ignored);
}

#[test]
fn context_of_partial_lines() {
    assert_eq!(completion_context("ech"), (vec![], "ech".to_string()));
    assert_eq!(completion_context("cat fi"), (strings(&["cat"]), "fi".to_string()));
    assert_eq!(completion_context("cat "), (strings(&["cat"]), String::new()));
    assert_eq!(completion_context(""), (vec![], String::new()));
    // An escaped space does not count as a word boundary.
    assert_eq!(completion_context("cat a\\ "), (strings(&["cat"]), "a".to_string()));
}

#[test]
fn tries_from_names() {
    let t = build_custom_trie(strings(&["a.txt", "b.txt", "src/"]));
    assert_eq!(t.autocomplete("s"), vec!["src/"]);
    let reg = BuiltinRegistry::new();
    let t = build_completion_trie(&reg, strings(&["ls", "echo", "ls"]));
    let mut e = t.autocomplete("e");
    e.sort();
    assert_eq!(e, vec!["echo", "exit"]);
    assert_eq!(t.autocomplete("l"), vec!["ls"]);
}

#[test]
fn completion_registered_check() {
    let mut ctx = RuntimeContext::new(&BuiltinRegistry::new());
    assert!(!is_completion_exist("git", &ctx));
    builtin_complete(&strings(&["-C", "/x", "git"]), &mut ctx);
    assert!(is_completion_exist("git", &ctx));
}

#[test]
fn tab_on_command_names() {
    let t = build_custom_trie(strings(&["echo", "exit", "cargo", "cat", "cd"]));
    let mut line = "ech".to_string();
    assert_eq!(tab_executable(&t, &mut line, "ech", 1), Feedback::Redraw);
    assert_eq!(line, "echo ");

    let mut line = "ca".to_string();
    assert_eq!(tab_executable(&t, &mut line, "ca", 1), Feedback::Bell);
    assert_eq!(line, "ca");
    assert_eq!(tab_executable(&t, &mut line, "ca", 2), Feedback::Candidates("cargo cat".to_string()));
    assert_eq!(line, "ca");

    let mut line = "zz".to_string();
    assert_eq!(tab_executable(&t, &mut line, "zz", 2), Feedback::Bell);
}

#[test]
fn tab_fills_common_extension() {
    let t = build_custom_trie(strings(&["python3", "python3-config"]));
    let mut line = "py".to_string();
    assert_eq!(tab_executable(&t, &mut line, "py", 1), Feedback::Redraw);
    assert_eq!(line, "python3");
}

#[test]
fn split_of_paths_being_typed() {
    assert_eq!(split_prefix_dir("src/tok"), ("src/".to_string(), "tok".to_string()));
    assert_eq!(split_prefix_dir("a/b/"), ("a/b/".to_string(), String::new()));
    assert_eq!(split_prefix_dir("main"), (".".to_string(), "main".to_string()));
}

#[test]
fn tab_on_file_names() {
    let entries = strings(&["main.rs", "lib.rs", "src/"]);
    let mut line = "cat ma".to_string();
    assert_eq!(tab_files(&mut line, &strings(&["cat"]), "ma", entries.clone(), 1), Feedback::Redraw);
    assert_eq!(line, "cat main.rs ");

    let mut line = "cat s".to_string();
    assert_eq!(tab_files(&mut line, &strings(&["cat"]), "s", entries.clone(), 1), Feedback::Redraw);
    assert_eq!(line, "cat src/");

    let mut line = "cat ".to_string();
    assert_eq!(tab_files(&mut line, &strings(&["cat"]), "", entries.clone(), 1), Feedback::Bell);
    assert_eq!(
        tab_files(&mut line, &strings(&["cat"]), "", entries.clone(), 2),
        Feedback::Candidates("lib.rs main.rs src/".to_string())
    );

    // A single candidate equal to what was typed rebuilds the line with it.
    let mut line = "cat lib.rs".to_string();
    assert_eq!(tab_files(&mut line, &strings(&["cat"]), "lib.rs", entries, 1), Feedback::Redraw);
    assert_eq!(line, "cat lib.rs ");

    // The directory part typed is kept.
    let mut line = "cat src/lib.rs".to_string();
    let inside = strings(&["lib.rs", "main.rs"]);
    assert_eq!(tab_files(&mut line, &strings(&["cat"]), "src/lib.rs", inside, 1), Feedback::Redraw);
    assert_eq!(line, "cat src/lib.rs ");
}

#[test]
fn backspace_erases_last_char() {
    let mut line = "abé".to_string();
    assert!(backspace(&mut line));
    assert_eq!(line, "ab");
    let mut empty = String::new();
    assert!(!backspace(&mut empty));
    assert_eq!(empty, "");
}

#[test]
fn completion_output_is_appended() {
    let mut line = "git ".to_string();
    append_completion_output(&mut line, b"commit\n\n");
    assert_eq!(line, "git commit ");
    // Invalid UTF-8 is replaced, not dropped.
    let mut line = "x ".to_string();
    append_completion_output(&mut line, b"a\xffb\n");
    assert_eq!(line, "x a\u{fffd}b ");
}

#[test]
fn tab_target_by_position_and_registration() {
    let mut ctx = RuntimeContext::new(&BuiltinRegistry::new());
    assert_eq!(tab_target(&[], &ctx), TabTarget::Executable);
    assert_eq!(tab_target(&strings(&["git"]), &ctx), TabTarget::Files);
    builtin_complete(&strings(&["-C", "/x", "git"]), &mut ctx);
    assert_eq!(tab_target(&strings(&["git"]), &ctx), TabTarget::Completion);
    assert_eq!(tab_target(&strings(&["git", "commit"]), &ctx), TabTarget::Completion);
    assert_eq!(tab_target(&strings(&["cat", "git"]), &ctx), TabTarget::Files);
}

#[test]
fn tab_count_counts_tabs_in_a_row() {
    assert_eq!(next_tab_count(&Key::Tab, 0), 1);
    assert_eq!(next_tab_count(&Key::Tab, 1), 2);
    assert_eq!(next_tab_count(&Key::Char('a'), 2), 0);
    assert_eq!(next_tab_count(&Key::Backspace, 3), 0);
    assert_eq!(next_tab_count(&Key::Ignored, 2), 2);
    assert_eq!(next_tab_count(&Key::Enter, 2), 2);
}
