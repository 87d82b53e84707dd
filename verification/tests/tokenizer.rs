use shell::tokenizer::{split_words, tokenize, RedirectMode, Token};

fn words(input: &str) -> Vec<String> {
    split_words(input)
}

#[test]
fn split_plain_words() {
    assert_eq!(words("echo hello world"), vec!["echo", "hello", "world"]);
}

#[test]
fn split_collapses_spaces_and_trims_end() {
    assert_eq!(words("  echo   hi  \t\n"), vec!["echo", "hi"]);
    assert_eq!(words(""), Vec::<String>::new());
    assert_eq!(words("   "), Vec::<String>::new());
}

#[test]
fn split_single_quotes_are_literal() {
    assert_eq!(words("echo 'a  b' c"), vec!["echo", "a  b", "c"]);
    assert_eq!(words("echo 'a\\nb'"), vec!["echo", "a\\nb"]);
    assert_eq!(words("echo 'x''y'z"), vec!["echo", "xyz"]);
}

#[test]
fn split_unterminated_quote_runs_to_end() {
    assert_eq!(words("echo 'abc def"), vec!["echo", "abc def"]);
    assert_eq!(words("echo \"abc def"), vec!["echo", "abc def"]);
}

#[test]
fn split_double_quotes_escape_posix_chars_only() {
    assert_eq!(words(r#"echo "a\"b""#), vec!["echo", "a\"b"]);
    assert_eq!(words(r#"echo "a\\b""#), vec!["echo", "a\\b"]);
    assert_eq!(words(r#"echo "a\$b""#), vec!["echo", "a$b"]);
    assert_eq!(words(r#"echo "a\nb""#), vec!["echo", "a\\nb"]);
    assert_eq!(words(r#"echo "it's""#), vec!["echo", "it's"]);
}

#[test]
fn split_bare_backslash_escapes_next() {
    assert_eq!(words(r"echo a\ b"), vec!["echo", "a b"]);
    assert_eq!(words(r"echo \'x\'"), vec!["echo", "'x'"]);
    // A backslash at the very end is dropped.
    assert_eq!(words("echo a\\"), vec!["echo", "a"]);
}

#[test]
fn split_empty_quotes_make_no_word() {
    assert_eq!(words("echo '' x"), vec!["echo", "x"]);
}

#[test]
fn tokenize_classifies_operators() {
    let tokens = tokenize("ls -l > out.txt 2>> err.log | wc &");
    assert_eq!(tokens.len(), 9);
    assert!(matches!(&tokens[0], Token::Word(w) if w == "ls"));
    assert!(matches!(&tokens[1], Token::Word(w) if w == "-l"));
    assert!(matches!(tokens[2], Token::Redirect { fd: 1, mode: RedirectMode::Truncate }));
    assert!(matches!(&tokens[3], Token::Word(w) if w == "out.txt"));
    assert!(matches!(tokens[4], Token::Redirect { fd: 2, mode: RedirectMode::Append }));
    assert!(matches!(&tokens[5], Token::Word(w) if w == "err.log"));
    assert!(matches!(tokens[6], Token::Pipe));
    assert!(matches!(&tokens[7], Token::Word(w) if w == "wc"));
    assert!(matches!(tokens[8], Token::Ampersand));
}

#[test]
fn tokenize_all_redirect_forms() {
    let tokens = tokenize("> 1> 2> >> 1>> 2>> 3>");
    assert!(matches!(tokens[0], Token::Redirect { fd: 1, mode: RedirectMode::Truncate }));
    assert!(matches!(tokens[1], Token::Redirect { fd: 1, mode: RedirectMode::Truncate }));
    assert!(matches!(tokens[2], Token::Redirect { fd: 2, mode: RedirectMode::Truncate }));
    assert!(matches!(tokens[3], Token::Redirect { fd: 1, mode: RedirectMode::Append }));
    assert!(matches!(tokens[4], Token::Redirect { fd: 1, mode: RedirectMode::Append }));
    assert!(matches!(tokens[5], Token::Redirect { fd: 2, mode: RedirectMode::Append }));
    assert!(matches!(&tokens[6], Token::Word(w) if w == "3>"));
}

#[test]
fn tokenize_quoted_operator_is_still_operator() {
    // Quotes are removed before classification.
    let tokens = tokenize("echo '|'");
    assert!(matches!(tokens[1], Token::Pipe));
    let tokens = tokenize("echo a|b");
    assert!(matches!(&tokens[1], Token::Word(w) if w == "a|b"));
}

#[test]
fn split_on_tabs_and_other_white_space() {
    assert_eq!(words("a\tb"), vec!["a", "b"]);
    assert_eq!(words("echo\t\thi\u{a0}there"), vec!["echo", "hi", "there"]);
    assert_eq!(words("'a\tb' c"), vec!["a\tb", "c"]);
}
