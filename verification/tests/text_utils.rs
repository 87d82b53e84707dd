use shell::text::{decimal_string, is_whitespace, join, sort_distinct, str_lt, trim_end_string, trim_string};
use shell::utils::{expand_tilde, get_path_executables_deduped};

#[test]
fn whitespace_agrees_with_std() {
    for c in (0u32..=0x10FFFF).filter_map(char::from_u32) {
        assert_eq!(is_whitespace(c), c.is_whitespace(), "{:?}", c);
    }
}

#[test]
fn trimming_agrees_with_std() {
    for s in ["", "  a b  ", "\u{3000}x\u{a0}", "\t\n", "x"] {
        assert_eq!(trim_end_string(s), s.trim_end());
        assert_eq!(trim_string(s), s.trim());
    }
}

#[test]
fn decimal_agrees_with_std() {
    for n in [0u32, 1, 9, 10, 11, 99, 100, 12345, 4294967295] {
        assert_eq!(decimal_string(n), n.to_string());
    }
}

#[test]
fn string_order_agrees_with_std() {
    let words = ["", "a", "ab", "b", "é", "z", "Z", "aa", "abc", "\u{10000}", "\u{ffff}"];
    for a in words {
        for b in words {
            assert_eq!(str_lt(a, b), a < b, "{:?} {:?}", a, b);
        }
    }
    assert_eq!(sort_distinct(vec!["pwd", "cd", "echo", "\u{10000}", "\u{ffff}"]), vec!["cd", "echo", "pwd", "\u{ffff}", "\u{10000}"]);
}

#[test]
fn join_with_separator() {
    let parts = vec!["a".to_string(), "b".to_string(), "c".to_string()];
    assert_eq!(join(&parts, ", "), "a, b, c");
    assert_eq!(join(&[], "-"), "");
    assert_eq!(join(&parts[..1], "-"), "a");
}

#[test]
fn tilde_expansion_cases() {
    assert_eq!(expand_tilde("~", Some("/home/u")), "/home/u");
    assert_eq!(expand_tilde("~", None), "~");
    assert_eq!(expand_tilde("~/x/y", Some("/home/u")), "/home/u/x/y");
    assert_eq!(expand_tilde("~/x", None), "/x");
    assert_eq!(expand_tilde("~user", Some("/home/u")), "~user");
    assert_eq!(expand_tilde("/abs", Some("/home/u")), "/abs");
    assert_eq!(expand_tilde("", Some("/home/u")), "");
}

#[test]
fn dedup_keeps_first_occurrences() {
    let names: Vec<String> = ["ls", "cat", "ls", "grep", "cat"].iter().map(|s| s.to_string()).collect();
    assert_eq!(get_path_executables_deduped(names.clone()), vec!["ls", "cat", "grep"]);
    let once = get_path_executables_deduped(names);
    assert_eq!(get_path_executables_deduped(once.clone()), once);
}
