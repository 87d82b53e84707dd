use vstd::prelude::*;

use crate::builtins::BuiltinRegistry;
use crate::context::RuntimeContext;
use crate::text::{
    chars_of, join, join_seq, lemma_str_views_push, lex_sorted, push_char, push_str,
    sort_distinct, str_views, string_from_chars, string_views, trim_end, trim_end_string,
};
use crate::executor::{lossy_utf8, utf8_lossy};
use crate::tokenizer::{spec_split_words, split_words};
use crate::trie::{completes, is_longest_extension, Trie};
use crate::utils::get_path_executables_deduped;

verus! {

/// A key press, as the line editor tells them apart.
#[derive(Debug, Clone, Copy, PartialEq, Eq, Structural)]
pub enum Key {
    Tab,
    Enter,
    Backspace,
    Char(char),
    Ignored,
}

/// What a byte read from the terminal means: tab, carriage return or line
/// feed, delete or backspace, a printable character (32 and up), or
/// nothing.
pub fn classify_key(byte: u8) -> (k: Key)
    ensures
        k == (if byte == 9 {
            Key::Tab
        } else if byte == 13 || byte == 10 {
            Key::Enter
        } else if byte == 127 || byte == 8 {
            Key::Backspace
        } else if byte >= 32 {
            Key::Char(byte as char)
        } else {
            Key::Ignored
        }),
{
    if byte == 9 {
        Key::Tab
    } else if byte == 13 || byte == 10 {
        Key::Enter
    } else if byte == 127 || byte == 8 {
        Key::Backspace
    } else if byte >= 32 {
        Key::Char(byte as char)
    } else {
        Key::Ignored
    }
}

/// The number of `<Tab>` presses in a row after `key`: one more after a
/// tab, none after a character or a backspace, unchanged otherwise.
pub fn next_tab_count(key: &Key, count: u32) -> (n: u32)
    requires
        *key is Tab ==> count < u32::MAX,
    ensures
        n == (match *key {
            Key::Tab => count + 1,
            Key::Backspace | Key::Char(_) => 0,
            Key::Enter | Key::Ignored => count as int,
        }),
{
    match key {
        Key::Tab => count + 1,
        Key::Backspace | Key::Char(_) => 0,
        Key::Enter | Key::Ignored => count,
    }
}

/// Build a [`Trie`] of the given names.
pub fn build_custom_trie(names: Vec<String>) -> (trie: Trie)
    ensures
        trie@ == string_views(names@).to_set(),
{
    let mut trie = Trie::new();
    let mut i: usize = 0;
    assert(string_views(names@).take(0).to_set() =~= Set::<Seq<char>>::empty());
    while i < names.len()
        invariant
            i <= names@.len(),
            trie@ == string_views(names@).take(i as int).to_set(),
        decreases names@.len() - i,
    {
        let ghost before = trie@;
        trie.insert(names[i].as_str());
        proof {
            let v = string_views(names@);
            assert(v[i as int] == names@[i as int]@);
            assert(v.take(i + 1) =~= v.take(i as int).push(names@[i as int]@));
            lemma_push_to_set(v.take(i as int), names@[i as int]@);
        }
        i = i + 1;
    }
    assert(string_views(names@).take(names@.len() as int) =~= string_views(names@));
    trie
}

/// The elements after a push are those before and the pushed one.
proof fn lemma_push_to_set(s: Seq<Seq<char>>, x: Seq<char>)
    ensures
        s.push(x).to_set() == s.to_set().insert(x),
{
    assert(s.push(x).to_set() =~= s.to_set().insert(x)) by {
        assert forall|w: Seq<char>| s.push(x).to_set().contains(w) implies s.to_set().insert(x).contains(w) by {
            let k = choose|k: int| 0 <= k < s.push(x).len() && s.push(x)[k] == w;
            if k < s.len() {
                assert(s[k] == w);
            }
        }
        assert forall|w: Seq<char>| s.to_set().insert(x).contains(w) implies s.push(x).to_set().contains(w) by {
            if w == x {
                assert(s.push(x)[s.len() as int] == w);
            } else {
                let k = choose|k: int| 0 <= k < s.len() && s[k] == w;
                assert(s.push(x)[k] == w);
            }
        }
    }
}

/// Build a [`Trie`] populated with builtin command names and the
/// executables found on the search path (each name once).
pub fn build_completion_trie(registry: &BuiltinRegistry, executables: Vec<String>) -> (trie: Trie)
    ensures
        trie@ == registry@.dom().union(string_views(executables@).to_set()),
{
    let mut trie = Trie::new();
    let names = registry.names();
    let mut i: usize = 0;
    assert(str_views(names@).take(0).to_set() =~= Set::<Seq<char>>::empty());
    while i < names.len()
        invariant
            i <= names@.len(),
            trie@ == str_views(names@).take(i as int).to_set(),
        decreases names@.len() - i,
    {
        trie.insert(names[i]);
        proof {
            let v = str_views(names@);
            assert(v.take(i + 1) =~= v.take(i as int).push(names@[i as int]@));
            lemma_push_to_set(v.take(i as int), names@[i as int]@);
        }
        i = i + 1;
    }
    assert(str_views(names@).take(names@.len() as int) =~= str_views(names@));
    let ghost first = trie@;
    let exes = get_path_executables_deduped(executables);
    proof {
        crate::utils::lemma_first_occurrences(string_views(executables@));
    }
    let mut j: usize = 0;
    assert(string_views(exes@).take(0).to_set() =~= Set::<Seq<char>>::empty());
    while j < exes.len()
        invariant
            j <= exes@.len(),
            trie@ == first.union(string_views(exes@).take(j as int).to_set()),
        decreases exes@.len() - j,
    {
        trie.insert(exes[j].as_str());
        proof {
            let v = string_views(exes@);
            assert(v[j as int] == exes@[j as int]@);
            assert(v.take(j + 1) =~= v.take(j as int).push(exes@[j as int]@));
            lemma_push_to_set(v.take(j as int), exes@[j as int]@);
            assert(trie@ =~= first.union(v.take(j + 1).to_set()));
        }
        j = j + 1;
    }
    assert(string_views(exes@).take(exes@.len() as int) =~= string_views(exes@));
    trie
}

/// The words typed so far and the word being typed: after a space that is
/// not escaped, every word is complete and the word being typed is empty;
/// otherwise the last word is the one being typed.
pub open spec fn spec_completion_context(input: Seq<char>) -> (Seq<Seq<char>>, Seq<char>) {
    let words = spec_split_words(input);
    if input.len() >= 1 && input.last() == ' ' && !(input.len() >= 2 && input[input.len() - 2]
        == '\\') {
        (words, Seq::empty())
    } else if words.len() > 0 {
        (words.drop_last(), words.last())
    } else {
        (Seq::empty(), Seq::empty())
    }
}

/// Extract the completion context from a partial input line.
///
/// Returns `(words_before_cursor, prefix_being_typed)`.
/// If the cursor is at a fresh word boundary (trailing space), `prefix` is `""`.
pub fn completion_context(input: &str) -> (r: (Vec<String>, String))
    ensures
        (string_views(r.0@), r.1@) == spec_completion_context(input@),
{
    let cs = chars_of(input);
    let n = cs.len();
    let trailing_space = n >= 1 && cs[n - 1] == ' ' && !(n >= 2 && cs[n - 2] == '\\');
    let mut words = split_words(input);
    if trailing_space {
        return (words, String::new());
    }
    match words.pop() {
        Some(last) => {
            assert(string_views(words@) =~= spec_split_words(input@).drop_last());
            (words, last)
        },
        None => {
            assert(string_views(words@) =~= Seq::<Seq<char>>::empty());
            (words, String::new())
        },
    }
}

/// Whether a completion command has been registered for `first_cmd`.
pub fn is_completion_exist(first_cmd: &str, ctx: &RuntimeContext) -> (r: bool)
    ensures
        r == ctx.completion@.contains_key(first_cmd@),
{
    ctx.completion.contains_key(first_cmd)
}

/// What a `<Tab>` press completes.
#[derive(Debug, PartialEq, Eq)]
pub enum TabTarget {
    /// Run the completion command registered for the first word.
    Completion,
    /// Complete the command name being typed.
    Executable,
    /// Complete a file or directory name.
    Files,
}

/// Choose what a `<Tab>` press completes, given the words before the one
/// being typed: the registered completion command of the first word if
/// there is one, the command name when there are no words before, file
/// names otherwise.
pub fn tab_target(prev_words: &[String], ctx: &RuntimeContext) -> (t: TabTarget)
    ensures
        t == (if prev_words@.len() > 0 && ctx.completion@.contains_key(prev_words@[0]@) {
            TabTarget::Completion
        } else if prev_words@.len() == 0 {
            TabTarget::Executable
        } else {
            TabTarget::Files
        }),
{
    if prev_words.len() > 0 && is_completion_exist(prev_words[0].as_str(), ctx) {
        TabTarget::Completion
    } else if prev_words.len() == 0 {
        TabTarget::Executable
    } else {
        TabTarget::Files
    }
}

/// What the terminal should show after a key press.
#[derive(Debug, PartialEq, Eq)]
pub enum Feedback {
    /// Redraw the line: carriage return, the prompt and the line.
    Redraw,
    /// Show the candidates on a line of their own, then the prompt and the line.
    Candidates(String),
    /// Ring the bell.
    Bell,
}

/// The words of `words` that start with `prefix`.
pub open spec fn candidates(words: Set<Seq<char>>, prefix: Seq<char>) -> Set<Seq<char>> {
    words.filter(|w: Seq<char>| completes(prefix, w))
}

/// `text` lists the candidates in the order of `str`, separated by spaces.
pub open spec fn lists_candidates(text: Seq<char>, cands: Set<Seq<char>>) -> bool {
    exists|s: Seq<Seq<char>>| lex_sorted(s) && s.to_set() == cands && text == join_seq(s, seq![' '])
}

/// The words of the autocompletion, sorted, separated by spaces.
fn sorted_listing(predictions: &Vec<String>) -> (text: String)
    requires
        string_views(predictions@).no_duplicates(),
    ensures
        lists_candidates(text@, string_views(predictions@).to_set()),
{
    let mut refs: Vec<&str> = Vec::new();
    let mut i: usize = 0;
    while i < predictions.len()
        invariant
            i <= predictions@.len(),
            str_views(refs@) == string_views(predictions@).take(i as int),
        decreases predictions@.len() - i,
    {
        let ghost before = refs@;
        let r = predictions[i].as_str();
        refs.push(r);
        proof {
            lemma_str_views_push(before, r);
            assert(string_views(predictions@).take(i + 1) =~= string_views(predictions@).take(
                i as int,
            ).push(predictions@[i as int]@));
        }
        i = i + 1;
    }
    assert(string_views(predictions@).take(predictions@.len() as int) =~= string_views(predictions@));
    let sorted = sort_distinct(refs);
    let mut owned: Vec<String> = Vec::new();
    let mut j: usize = 0;
    while j < sorted.len()
        invariant
            j <= sorted@.len(),
            string_views(owned@) == str_views(sorted@).take(j as int),
        decreases sorted@.len() - j,
    {
        let ghost before = owned@;
        let o = str::to_owned(sorted[j]);
        owned.push(o);
        proof {
            crate::text::lemma_string_views_push(before, o);
            assert(str_views(sorted@).take(j + 1) =~= str_views(sorted@).take(j as int).push(
                sorted@[j as int]@,
            ));
        }
        j = j + 1;
    }
    assert(str_views(sorted@).take(sorted@.len() as int) =~= str_views(sorted@));
    let text = join(owned.as_slice(), " ");
    proof {
        reveal_strlit(" ");
        assert(" "@ =~= seq![' ']);
    }
    text
}

/// The autocompletion, with what is known of it: each candidate once.
fn predictions_of(trie: &Trie, prefix: &str) -> (p: Vec<String>)
    ensures
        string_views(p@).no_duplicates(),
        string_views(p@).to_set() == candidates(trie@, prefix@),
{
    let p = trie.autocomplete(prefix);
    proof {
        assert(string_views(p@).to_set() =~= candidates(trie@, prefix@)) by {
            assert forall|w: Seq<char>| string_views(p@).to_set().contains(w) implies candidates(
                trie@,
                prefix@,
            ).contains(w) by {
                let k = choose|k: int| 0 <= k < string_views(p@).len() && string_views(p@)[k] == w;
                assert(p@[k]@ == w);
            }
            assert forall|w: Seq<char>| candidates(trie@, prefix@).contains(w) implies string_views(
                p@,
            ).to_set().contains(w) by {
                let k = choose|k: int| 0 <= k < p@.len() && #[trigger] p@[k]@ == w;
                assert(string_views(p@)[k] == w);
            }
        }
    }
    p
}

/// A longest extension comes with some word that starts with the prefix.
proof fn lemma_extension_has_completion(words: Set<Seq<char>>, prefix: Seq<char>, e: Seq<char>)
    requires
        is_longest_extension(words, prefix, e),
    ensures
        crate::trie::has_completion(words, prefix),
{
    if words.contains(prefix + e) {
        assert(prefix =~= (prefix + e).subrange(0, prefix.len() as int));
        assert(completes(prefix, prefix + e));
    } else {
        let (w1, w2) = choose|w1: Seq<char>, w2: Seq<char>|
            #[trigger] words.contains(w1) && #[trigger] words.contains(w2) && completes(prefix, w1)
                && completes(prefix, w2) && crate::trie::diverge_after(w1, w2, (prefix + e).len());
        assert(words.contains(w1) && completes(prefix, w1));
    }
}

/// A set with no element or several has no single element.
proof fn lemma_single(s: Seq<Seq<char>>)
    requires
        s.no_duplicates(),
    ensures
        s.to_set().len() == s.len(),
{
    s.unique_seq_to_set();
}

/// Process a `<Tab>` press on the first word: complete a command name.
///
/// With one candidate, the line becomes that candidate and a space; else
/// with a longest common extension, the line is extended by it; else on a
/// repeated tab with several candidates, they are listed; else the bell.
pub fn tab_executable(trie: &Trie, line: &mut String, prefix: &str, tab_count: u32) -> (f: Feedback)
    ensures
        ({
            let c = candidates(trie@, prefix@);
            if c.len() == 1 {
                &&& f == Feedback::Redraw
                &&& c.contains(final(line)@.drop_last())
                &&& final(line)@.len() > 0
                &&& final(line)@.last() == ' '
            } else if exists|e: Seq<char>| e.len() > 0 && is_longest_extension(trie@, prefix@, e) {
                &&& f == Feedback::Redraw
                &&& exists|e: Seq<char>|
                    e.len() > 0 && is_longest_extension(trie@, prefix@, e) && final(line)@ == old(
                        line,
                    )@ + e
            } else if c.len() > 1 && tab_count >= 2 {
                &&& final(line)@ == old(line)@
                &&& f matches Feedback::Candidates(t) && lists_candidates(t@, c)
            } else {
                &&& final(line)@ == old(line)@
                &&& f == Feedback::Bell
            }
        }),
{
    let extension = trie.longest_common_extension(prefix);
    let predictions = predictions_of(trie, prefix);
    proof {
        lemma_single(string_views(predictions@));
    }
    if predictions.len() == 1 {
        // Only one match — complete it and add a trailing space.
        let mut new_line = predictions[0].clone();
        push_char(&mut new_line, ' ');
        *line = new_line;
        proof {
            assert(string_views(predictions@)[0] == predictions@[0]@);
            assert(line@.drop_last() =~= predictions@[0]@);
        }
        Feedback::Redraw
    } else {
        match extension {
            Some(ext) => {
                // Multiple matches sharing a common extension — fill it in.
                push_str(line, ext.as_str());
                Feedback::Redraw
            },
            None => {
                proof {
                    if exists|e: Seq<char>| e.len() > 0 && is_longest_extension(trie@, prefix@, e) {
                        let e = choose|e: Seq<char>|
                            e.len() > 0 && is_longest_extension(trie@, prefix@, e);
                        lemma_extension_has_completion(trie@, prefix@, e);
                        crate::trie::lemma_longest_extension_unique(trie@, prefix@, e, Seq::empty());
                    }
                }
                if predictions.len() > 1 && tab_count >= 2 {
                    // Second tab with ambiguous completions — list them all.
                    Feedback::Candidates(sorted_listing(&predictions))
                } else {
                    Feedback::Bell
                }
            },
        }
    }
}


/// The position of the last `/` in `p`, if there is one.
pub open spec fn last_slash(p: Seq<char>) -> Option<int>
    decreases p.len(),
{
    if p.len() == 0 {
        None
    } else if p.last() == '/' {
        Some(p.len() - 1)
    } else {
        last_slash(p.drop_last())
    }
}

/// The directory part of a path being typed (up to and with its last `/`,
/// or `.` when there is none) and the name part after it.
pub open spec fn spec_split_dir(p: Seq<char>) -> (Seq<char>, Seq<char>) {
    match last_slash(p) {
        Some(i) => (p.take(i + 1), p.skip(i + 1)),
        None => (seq!['.'], p),
    }
}

/// The directory part of a path being typed, as typed: up to and with its
/// last `/`, or nothing when there is none.
pub open spec fn typed_dir(p: Seq<char>) -> Seq<char> {
    match last_slash(p) {
        Some(i) => p.take(i + 1),
        None => Seq::empty(),
    }
}

/// The last `/` found lies inside the path, and no `/` comes after it; when
/// none is found, the path holds no `/`.
proof fn lemma_last_slash_in_range(p: Seq<char>)
    ensures
        match last_slash(p) {
            Some(i) => {
                &&& 0 <= i < p.len()
                &&& p[i] == '/'
                &&& forall|j: int| i < j < p.len() ==> p[j] != '/'
            },
            None => forall|j: int| 0 <= j < p.len() ==> p[j] != '/',
        },
    decreases p.len(),
{
    if p.len() > 0 && p.last() != '/' {
        lemma_last_slash_in_range(p.drop_last());
        assert(forall|j: int| 0 <= j < p.len() - 1 ==> p.drop_last()[j] == p[j]);
    }
}

/// Law: a path being typed splits at its last `/`: the directory part is
/// the path up to and with that `/`, the name part is the rest and holds
/// no `/`, and the two together give the path back. A path without `/` is
/// looked for in the current directory, `.`, as a whole.
pub proof fn lemma_split_dir_at_last_slash(p: Seq<char>)
    ensures
        p.contains('/') ==> {
            let (dir, leaf) = spec_split_dir(p);
            &&& dir + leaf == p
            &&& dir.len() > 0
            &&& dir.last() == '/'
            &&& !leaf.contains('/')
        },
        !p.contains('/') ==> spec_split_dir(p) == (seq!['.'], p),
{
    lemma_last_slash_in_range(p);
    match last_slash(p) {
        Some(i) => {
            let (dir, leaf) = spec_split_dir(p);
            assert(dir + leaf =~= p);
            assert(dir.last() == p[i]);
            assert forall|j: int| 0 <= j < leaf.len() implies leaf[j] != '/' by {
                assert(leaf[j] == p[i + 1 + j]);
            }
        },
        None => {
            assert(!p.contains('/'));
        },
    }
}

/// Split a path being typed into its directory part and the name part.
pub fn split_prefix_dir(prefix: &str) -> (r: (String, String))
    ensures
        (r.0@, r.1@) == spec_split_dir(prefix@),
{
    let cs = chars_of(prefix);
    let mut k = cs.len();
    assert(cs@.take(k as int) =~= cs@);
    while k > 0 && cs[k - 1] != '/'
        invariant
            k <= cs@.len(),
            cs@ == prefix@,
            last_slash(cs@.take(k as int)) == last_slash(prefix@),
        decreases k,
    {
        assert(cs@.take(k as int).drop_last() =~= cs@.take(k - 1));
        k = k - 1;
    }
    if k == 0 {
        assert(cs@.take(0) =~= Seq::<char>::empty());
        proof {
            reveal_strlit(".");
            assert("."@ =~= seq!['.']);
        }
        (".".to_string(), str::to_owned(prefix))
    } else {
        assert(cs@.take(k as int).last() == '/');
        let dir = string_from_chars(crate::text::slice_prefix(&cs, k).as_slice());
        let mut rest: Vec<char> = Vec::new();
        let mut i = k;
        while i < cs.len()
            invariant
                k <= i <= cs@.len(),
                rest@ == cs@.subrange(k as int, i as int),
            decreases cs@.len() - i,
        {
            rest.push(cs[i]);
            i = i + 1;
            assert(rest@ =~= cs@.subrange(k as int, i as int));
        }
        assert(rest@ =~= prefix@.skip(k as int));
        (dir, string_from_chars(rest.as_slice()))
    }
}

/// Whether `s` holds a `/`.
fn has_slash(s: &str) -> (r: bool)
    ensures
        r == s@.contains('/'),
{
    let cs = chars_of(s);
    let mut i: usize = 0;
    while i < cs.len()
        invariant
            i <= cs@.len(),
            cs@ == s@,
            forall|k: int| 0 <= k < i ==> cs@[k] != '/',
        decreases cs@.len() - i,
    {
        if cs[i] == '/' {
            return true;
        }
        i = i + 1;
    }
    false
}

/// Process a `<Tab>` press after the first word: complete a file or
/// directory name among `entries`, the names found in the directory part of
/// `prefix` (directories with a trailing `/`).
///
/// With a longest common extension, the line is extended by it (and a
/// space when it is the only candidate and no directory); else with one
/// candidate, the line is rebuilt from the words before and the completed
/// name (with the directory part, if one was typed), then a space; else on a repeated tab with several candidates, they
/// are listed; else the bell.
pub fn tab_files(
    line: &mut String,
    prev_words: &[String],
    prefix: &str,
    entries: Vec<String>,
    tab_count: u32,
) -> (f: Feedback)
    ensures
        ({
            let (base, leaf) = spec_split_dir(prefix@);
            let t = string_views(entries@).to_set();
            let c = candidates(t, leaf);
            if exists|e: Seq<char>| e.len() > 0 && is_longest_extension(t, leaf, e) {
                &&& f == Feedback::Redraw
                &&& exists|e: Seq<char>|
                    e.len() > 0 && is_longest_extension(t, leaf, e) && final(line)@ == old(line)@ + e
                        + (if !e.contains('/') && c.len() == 1 {
                        seq![' ']
                    } else {
                        Seq::empty()
                    })
            } else if c.len() == 1 {
                &&& f == Feedback::Redraw
                &&& exists|w: Seq<char>|
                    c.contains(w) && final(line)@ == join_seq(
                        string_views(prev_words@).push(typed_dir(prefix@) + w),
                        seq![' '],
                    ) + seq![' ']
            } else if c.len() > 1 && tab_count >= 2 {
                &&& final(line)@ == old(line)@
                &&& f matches Feedback::Candidates(t) && lists_candidates(t@, c)
            } else {
                &&& final(line)@ == old(line)@
                &&& f == Feedback::Bell
            }
        }),
{
    let (base_directory, leaf) = split_prefix_dir(prefix);
    let trie = build_custom_trie(entries);
    let completion = trie.longest_common_extension(leaf.as_str());
    let predictions = predictions_of(&trie, leaf.as_str());
    proof {
        lemma_single(string_views(predictions@));
        reveal_strlit(" ");
        assert(" "@ =~= seq![' ']);
    }
    match completion {
        Some(ext) => {
            // Multiple matches sharing a common extension — fill it in.
            push_str(line, ext.as_str());
            if !has_slash(ext.as_str()) && predictions.len() == 1 {
                push_char(line, ' ');
            }
            Feedback::Redraw
        },
        None => {
            proof {
                if exists|e: Seq<char>| e.len() > 0 && is_longest_extension(trie@, leaf@, e) {
                    let e = choose|e: Seq<char>| e.len() > 0 && is_longest_extension(trie@, leaf@, e);
                    lemma_extension_has_completion(trie@, leaf@, e);
                    crate::trie::lemma_longest_extension_unique(trie@, leaf@, e, Seq::empty());
                }
            }
            if predictions.len() == 1 {
                // Single match — rebuild line with the completed filename.
                let pcs = chars_of(prefix);
                let lcs = chars_of(leaf.as_str());
                proof {
                    lemma_last_slash_in_range(prefix@);
                }
                let typed = if lcs.len() < pcs.len() {
                    base_directory
                } else {
                    String::new()
                };
                assert(typed@ == typed_dir(prefix@));
                let mut new_line = join(prev_words, " ");
                if prev_words.len() > 0 {
                    push_char(&mut new_line, ' ');
                }
                push_str(&mut new_line, typed.as_str());
                push_str(&mut new_line, predictions[0].as_str());
                push_char(&mut new_line, ' ');
                proof {
                    let pv = string_views(prev_words@);
                    let x = typed@ + predictions@[0]@;
                    assert(pv.push(x).drop_last() =~= pv);
                    assert(pv.push(x).last() == x);
                    if pv.len() == 0 {
                        assert(pv.push(x).len() == 1);
                        assert(pv.push(x)[0] == x);
                    }
                    assert(new_line@ =~= join_seq(pv.push(x), seq![' ']) + seq![' ']);
                }
                *line = new_line;
                proof {
                    assert(string_views(predictions@)[0] == predictions@[0]@);
                    assert(string_views(predictions@).to_set().contains(predictions@[0]@));
                }
                Feedback::Redraw
            } else if predictions.len() > 1 && tab_count >= 2 {
                // Second tab with ambiguous completions — list them all.
                Feedback::Candidates(sorted_listing(&predictions))
            } else {
                Feedback::Bell
            }
        },
    }
}

/// Process a backspace / delete-backward press: drop the last character,
/// if there is one, and say whether there was.
pub fn backspace(line: &mut String) -> (erased: bool)
    ensures
        old(line)@.len() > 0 ==> erased && final(line)@ == old(line)@.drop_last(),
        old(line)@.len() == 0 ==> !erased && final(line)@ == old(line)@,
{
    let cs = chars_of(line.as_str());
    if cs.len() == 0 {
        return false;
    }
    let kept = crate::text::slice_prefix(&cs, cs.len() - 1);
    *line = string_from_chars(kept.as_slice());
    assert(cs@.take(cs@.len() - 1) =~= cs@.drop_last());
    true
}

/// Add what a completion command printed to the line: the bytes decoded as
/// UTF-8 (invalid sequences replaced), trailing white space removed, then a
/// space.
pub fn append_completion_output(line: &mut String, output: &[u8])
    ensures
        final(line)@ == old(line)@ + trim_end(lossy_utf8(output@)) + seq![' '],
        vstd::utf8::valid_utf8(output@) ==> final(line)@ == old(line)@ + trim_end(
            vstd::utf8::decode_utf8(output@),
        ) + seq![' '],
{
    let decoded = utf8_lossy(output);
    let trimmed = trim_end_string(decoded.as_str());
    push_str(line, trimmed.as_str());
    push_char(line, ' ');
}

} // verus!
