use shell::parser::parse;
use shell::tokenizer::{tokenize, RedirectMode};

#[test]
fn parse_simple_command() {
    let p = parse(tokenize("echo hello world"));
    assert!(!p.is_empty());
    assert_eq!(p.commands.len(), 1);
    let c = &p.commands[0];
    assert_eq!(c.program, "echo");
    assert_eq!(c.args, vec!["hello", "world"]);
    assert!(c.redirects.is_empty());
    assert!(!c.is_background);
}

#[test]
fn parse_empty_line() {
    let p = parse(tokenize("   "));
    assert!(p.is_empty());
}

#[test]
fn parse_redirects_take_next_word() {
    let p = parse(tokenize("ls > out.txt 2>> err.log -a"));
    let c = &p.commands[0];
    assert_eq!(c.program, "ls");
    assert_eq!(c.args, vec!["-a"]);
    assert_eq!(c.redirects.len(), 2);
    assert_eq!(c.redirects[0].fd, 1);
    assert_eq!(c.redirects[0].mode, RedirectMode::Truncate);
    assert_eq!(c.redirects[0].target, "out.txt");
    assert_eq!(c.redirects[1].fd, 2);
    assert_eq!(c.redirects[1].mode, RedirectMode::Append);
    assert_eq!(c.redirects[1].target, "err.log");
}

#[test]
fn parse_redirect_without_target_is_ignored() {
    let p = parse(tokenize("ls >"));
    assert_eq!(p.commands.len(), 1);
    assert!(p.commands[0].redirects.is_empty());
    // A redirect with no word after it is dropped; the token after it stays.
    let p = parse(tokenize("ls > | wc"));
    assert_eq!(p.commands.len(), 2);
    assert_eq!(p.commands[0].program, "ls");
    assert!(p.commands[0].args.is_empty());
    assert!(p.commands[0].redirects.is_empty());
    assert_eq!(p.commands[1].program, "wc");
    assert!(p.commands[1].args.is_empty());
    assert!(!p.commands[0].is_background);
    let p = parse(tokenize("echo hi 2> &"));
    assert_eq!(p.commands.len(), 1);
    assert_eq!(p.commands[0].args, vec!["hi"]);
    assert!(p.commands[0].redirects.is_empty());
    assert!(p.commands[0].is_background);
}

#[test]
fn parse_background_and_pipe() {
    let p = parse(tokenize("sleep 5 &"));
    assert_eq!(p.commands.len(), 1);
    assert!(p.commands[0].is_background);

    let p = parse(tokenize("cat file | wc -l"));
    assert_eq!(p.commands.len(), 2);
    assert_eq!(p.commands[0].program, "cat");
    // A pipe ends the command; it does not send it to the background.
    assert!(!p.commands[0].is_background);
    assert_eq!(p.commands[1].program, "wc");
    assert_eq!(p.commands[1].args, vec!["-l"]);
    assert!(!p.commands[1].is_background);
}

#[test]
fn parse_leading_pipe_keeps_redirects() {
    let p = parse(tokenize("> f | echo x"));
    assert_eq!(p.commands.len(), 1);
    assert_eq!(p.commands[0].program, "echo");
    assert_eq!(p.commands[0].redirects.len(), 1);
    assert_eq!(p.commands[0].redirects[0].target, "f");
}

#[test]
fn parse_only_ampersand_means_background() {
    let p = parse(tokenize("ls | grep a | wc"));
    assert_eq!(p.commands.len(), 3);
    assert!(p.commands.iter().all(|c| !c.is_background));
    let p = parse(tokenize("sleep 1 & ls | wc"));
    assert_eq!(p.commands.len(), 3);
    assert!(p.commands[0].is_background);
    assert!(!p.commands[1].is_background);
    assert!(!p.commands[2].is_background);
}
