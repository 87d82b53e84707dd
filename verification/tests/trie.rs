use shell::trie::Trie;

fn sorted(mut v: Vec<String>) -> Vec<String> {
    v.sort();
    v
}

#[test]
fn trie_autocomplete_by_prefix() {
    let mut t = Trie::new();
    for w in ["cargo", "cat", "cd", "echo"] {
        t.insert(w);
    }
    assert_eq!(sorted(t.autocomplete("ca")), vec!["cargo", "cat"]);
    assert_eq!(sorted(t.autocomplete("c")), vec!["cargo", "cat", "cd"]);
    assert_eq!(t.autocomplete("e"), vec!["echo"]);
    assert!(t.autocomplete("x").is_empty());
    assert_eq!(sorted(t.autocomplete("")), vec!["cargo", "cat", "cd", "echo"]);
}

#[test]
fn trie_insert_twice_gives_once() {
    let mut t = Trie::new();
    t.insert("ls");
    t.insert("ls");
    assert_eq!(t.autocomplete("l"), vec!["ls"]);
}

#[test]
fn trie_word_that_is_a_prefix() {
    let mut t = Trie::new();
    t.insert("git");
    t.insert("gitk");
    assert_eq!(sorted(t.autocomplete("git")), vec!["git", "gitk"]);
    assert_eq!(t.longest_common_extension("gi"), Some("t".to_string()));
    assert_eq!(t.longest_common_extension("git"), None);
}

#[test]
fn trie_longest_common_extension_doc_examples() {
    let mut t = Trie::new();
    t.insert("cargo");
    t.insert("cat");
    assert_eq!(t.longest_common_extension("ca"), None);
    let mut only = Trie::new();
    only.insert("cargo");
    assert_eq!(only.longest_common_extension("ca"), Some("rgo".to_string()));
}

#[test]
fn trie_longest_common_extension_edges() {
    let mut t = Trie::new();
    assert_eq!(t.longest_common_extension(""), None);
    t.insert("python3");
    t.insert("python3-config");
    assert_eq!(t.longest_common_extension("py"), Some("thon3".to_string()));
    assert_eq!(t.longest_common_extension("zz"), None);
    assert_eq!(t.get_longest_common_prefix("py"), Some("thon3".to_string()));
    assert_eq!(t.get_longest_common_prefix("python3-"), Some("config".to_string()));
}

#[test]
fn trie_extension_keeps_candidates() {
    let mut t = Trie::new();
    for w in ["cargo-build", "cargo-run", "cat"] {
        t.insert(w);
    }
    let ext = t.longest_common_extension("car").unwrap();
    assert_eq!(ext, "go-");
    assert_eq!(sorted(t.autocomplete("car")), sorted(t.autocomplete("cargo-")));
}

#[test]
fn trie_unicode_words() {
    let mut t = Trie::new();
    t.insert("héllo");
    t.insert("hé");
    assert_eq!(sorted(t.autocomplete("h")), vec!["hé", "héllo"]);
    assert_eq!(t.longest_common_extension("h"), Some("é".to_string()));
}
