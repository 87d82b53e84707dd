use vstd::prelude::*;

use crate::text::{
    chars_of, is_white_space, is_whitespace, str_eq, string_from_chars, string_views, trim_end,
    trimmed_end_len,
};

verus! {

/// Redirect mode for file redirections.
#[derive(Debug, Clone, Copy, PartialEq, Eq, Structural)]
pub enum RedirectMode {
    /// `>`: replace the file's contents.
    Truncate,
    /// `>>`: add to the end of the file.
    Append,
}

/// A lexical token produced by the tokenizer.
#[derive(Debug)]
pub enum Token {
    Word(String),
    Pipe,
    Redirect { fd: u32, mode: RedirectMode },
    Ampersand,
}

// ---------------------------------------------------------------------------
// Characters
// ---------------------------------------------------------------------------

/// The characters that a backslash escapes inside double quotes.
pub open spec fn escapable_in_double_quotes(c: char) -> bool {
    c == '\\' || c == '$' || c == '"' || c == '`' || c == '\n'
}

// ---------------------------------------------------------------------------
// Word splitting, stated as a state machine over the characters
// ---------------------------------------------------------------------------

/// The words found so far, with the word being built added if it is not empty.
pub open spec fn finish_words(words: Seq<Seq<char>>, cur: Seq<char>) -> Seq<Seq<char>> {
    if cur.len() > 0 {
        words.push(cur)
    } else {
        words
    }
}

/// Splitting `rest` outside quotes, after `words` are done and `cur` is the
/// word being built.
pub open spec fn split_plain(rest: Seq<char>, words: Seq<Seq<char>>, cur: Seq<char>) -> Seq<
    Seq<char>,
>
    decreases rest.len(), 0int,
{
    if rest.len() == 0 {
        finish_words(words, cur)
    } else {
        let ch = rest[0];
        let tail = rest.drop_first();
        if ch == '\\' {
            if tail.len() > 0 {
                split_plain(tail.drop_first(), words, cur.push(tail[0]))
            } else {
                split_plain(tail, words, cur)
            }
        } else if ch == '\'' {
            split_single(tail, words, cur)
        } else if ch == '"' {
            split_double(tail, words, cur)
        } else if is_white_space(ch) {
            if cur.len() > 0 {
                split_plain(tail, words.push(cur), Seq::empty())
            } else {
                split_plain(tail, words, cur)
            }
        } else {
            split_plain(tail, words, cur.push(ch))
        }
    }
}

/// Splitting `rest` inside single quotes: everything is literal until the
/// closing quote.
pub open spec fn split_single(rest: Seq<char>, words: Seq<Seq<char>>, cur: Seq<char>) -> Seq<
    Seq<char>,
>
    decreases rest.len(), 1int,
{
    if rest.len() == 0 {
        finish_words(words, cur)
    } else if rest[0] == '\'' {
        split_plain(rest.drop_first(), words, cur)
    } else {
        split_single(rest.drop_first(), words, cur.push(rest[0]))
    }
}

/// Splitting `rest` inside double quotes: a backslash escapes `\`, `$`,
/// `"`, `` ` `` and newline, and stays literal before any other character.
pub open spec fn split_double(rest: Seq<char>, words: Seq<Seq<char>>, cur: Seq<char>) -> Seq<
    Seq<char>,
>
    decreases rest.len(), 1int,
{
    if rest.len() == 0 {
        finish_words(words, cur)
    } else {
        let ch = rest[0];
        let tail = rest.drop_first();
        if ch == '\\' && tail.len() > 0 {
            if escapable_in_double_quotes(tail[0]) {
                split_double(tail.drop_first(), words, cur.push(tail[0]))
            } else {
                split_double(tail, words, cur.push('\\'))
            }
        } else if ch == '"' {
            split_plain(tail, words, cur)
        } else {
            split_double(tail, words, cur.push(ch))
        }
    }
}

/// The words of an input line: trailing white space is dropped, words are
/// separated by white space, quotes group characters and backslashes escape.
pub open spec fn spec_split_words(input: Seq<char>) -> Seq<Seq<char>> {
    split_plain(trim_end(input), Seq::empty(), Seq::empty())
}


/// Split raw input into word strings, handling quoting and escaping.
///
/// This does *not* classify operators — it only splits on whitespace
/// while respecting quote boundaries and backslash escapes.
pub fn split_words(input: &str) -> (words: Vec<String>)
    ensures
        string_views(words@) == spec_split_words(input@),
{
    let all = chars_of(input);
    // Drop trailing white space.
    let n = trimmed_end_len(&all);
    let ghost cs = all@.take(n as int);
    let ghost target = spec_split_words(input@);
    let mut words: Vec<String> = Vec::new();
    let mut current: Vec<char> = Vec::new();
    let mut i: usize = 0;
    assert(cs.skip(0) =~= cs);
    assert(string_views(words@) =~= Seq::<Seq<char>>::empty());
    assert(current@ =~= Seq::<char>::empty());
    while i < n
        invariant
            n <= all@.len(),
            cs == all@.take(n as int),
            i <= n,
            target == spec_split_words(input@),
            split_plain(cs.skip(i as int), string_views(words@), current@) == target,
        decreases n - i,
    {
        let ghost wv = string_views(words@);
        let ghost cur = current@;
        let ghost i0 = i;
        let ch = all[i];
        assert(cs.skip(i as int)[0] == ch);
        assert(cs.skip(i as int).drop_first() =~= cs.skip(i + 1));
        i = i + 1;
        if ch == '\\' {
            // Bare backslash: escape the next character literally.
            if i < n {
                assert(cs.skip(i as int)[0] == all@[i as int]);
                assert(cs.skip(i as int).drop_first() =~= cs.skip(i + 1));
                current.push(all[i]);
                i = i + 1;
            }
        } else if ch == '\'' {
            // Single-quoted string: everything is literal until closing quote.
            let mut closed = false;
            while i < n && !closed
                invariant
                    n <= all@.len(),
                    cs == all@.take(n as int),
                    i0 < i <= n,
                    closed ==> split_plain(cs.skip(i as int), string_views(words@), current@)
                        == target,
                    !closed ==> split_single(cs.skip(i as int), string_views(words@), current@)
                        == target,
                decreases n - i, if closed { 0int } else { 1int },
            {
                let c = all[i];
                assert(cs.skip(i as int)[0] == c);
                assert(cs.skip(i as int).drop_first() =~= cs.skip(i + 1));
                i = i + 1;
                if c == '\'' {
                    closed = true;
                } else {
                    current.push(c);
                }
            }
            if !closed {
                assert(cs.skip(i as int).len() == 0);
            }
        } else if ch == '"' {
            // Double-quoted string: backslash only escapes \, $, ", `, and
            // newline (POSIX). For all other characters the backslash is
            // preserved literally.
            let mut closed = false;
            while i < n && !closed
                invariant
                    n <= all@.len(),
                    cs == all@.take(n as int),
                    i0 < i <= n,
                    closed ==> split_plain(cs.skip(i as int), string_views(words@), current@)
                        == target,
                    !closed ==> split_double(cs.skip(i as int), string_views(words@), current@)
                        == target,
                decreases n - i, if closed { 0int } else { 1int },
            {
                let c = all[i];
                assert(cs.skip(i as int)[0] == c);
                assert(cs.skip(i as int).drop_first() =~= cs.skip(i + 1));
                i = i + 1;
                if c == '\\' && i < n {
                    let next = all[i];
                    assert(cs.skip(i as int)[0] == next);
                    assert(cs.skip(i as int).drop_first() =~= cs.skip(i + 1));
                    if next == '\\' || next == '$' || next == '"' || next == '`' || next == '\n' {
                        i = i + 1;
                        current.push(next);
                    } else {
                        // Not a POSIX-escapable char — keep the backslash.
                        current.push('\\');
                    }
                } else if c == '"' {
                    closed = true;
                } else {
                    current.push(c);
                }
            }
            if !closed {
                assert(cs.skip(i as int).len() == 0);
            }
        } else if is_whitespace(ch) {
            // Whitespace: flush the current word.
            if current.len() > 0 {
                let w = string_from_chars(current.as_slice());
                words.push(w);
                current = Vec::new();
                assert(string_views(words@) =~= wv.push(cur));
            }
        } else {
            current.push(ch);
        }
    }
    assert(cs.skip(i as int).len() == 0);
    if current.len() > 0 {
        let ghost wv = string_views(words@);
        let w = string_from_chars(current.as_slice());
        words.push(w);
        assert(string_views(words@) =~= wv.push(current@));
    }
    words
}

// ---------------------------------------------------------------------------
// Classification
// ---------------------------------------------------------------------------

/// The file descriptor and mode that a redirect operator word stands for.
pub open spec fn redirect_of(w: Seq<char>) -> Option<(u32, RedirectMode)> {
    if w == seq!['>'] || w == seq!['1', '>'] {
        Some((1u32, RedirectMode::Truncate))
    } else if w == seq!['2', '>'] {
        Some((2u32, RedirectMode::Truncate))
    } else if w == seq!['>', '>'] || w == seq!['1', '>', '>'] {
        Some((1u32, RedirectMode::Append))
    } else if w == seq!['2', '>', '>'] {
        Some((2u32, RedirectMode::Append))
    } else {
        None
    }
}

/// `t` is the token that the word `w` is classified as.
pub open spec fn classifies_as(w: Seq<char>, t: Token) -> bool {
    match t {
        Token::Pipe => w == seq!['|'],
        Token::Ampersand => w == seq!['&'],
        Token::Redirect { fd, mode } => redirect_of(w) == Some((fd, mode)),
        Token::Word(s) => {
            &&& s@ == w
            &&& w != seq!['|']
            &&& w != seq!['&']
            &&& redirect_of(w) is None
        },
    }
}

/// Classify a raw word string into a typed [`Token`].
fn classify(word: String) -> (t: Token)
    ensures
        classifies_as(word@, t),
{
    let w = word.as_str();
    proof {
        reveal_strlit("|");
        reveal_strlit(">");
        reveal_strlit("1>");
        reveal_strlit("2>");
        reveal_strlit(">>");
        reveal_strlit("1>>");
        reveal_strlit("2>>");
        reveal_strlit("&");
        assert("|"@ =~= seq!['|']);
        assert(">"@ =~= seq!['>']);
        assert("1>"@ =~= seq!['1', '>']);
        assert("2>"@ =~= seq!['2', '>']);
        assert(">>"@ =~= seq!['>', '>']);
        assert("1>>"@ =~= seq!['1', '>', '>']);
        assert("2>>"@ =~= seq!['2', '>', '>']);
        assert("&"@ =~= seq!['&']);
    }
    if str_eq(w, "|") {
        Token::Pipe
    } else if str_eq(w, ">") || str_eq(w, "1>") {
        Token::Redirect { fd: 1, mode: RedirectMode::Truncate }
    } else if str_eq(w, "2>") {
        Token::Redirect { fd: 2, mode: RedirectMode::Truncate }
    } else if str_eq(w, ">>") || str_eq(w, "1>>") {
        Token::Redirect { fd: 1, mode: RedirectMode::Append }
    } else if str_eq(w, "2>>") {
        Token::Redirect { fd: 2, mode: RedirectMode::Append }
    } else if str_eq(w, "&") {
        Token::Ampersand
    } else {
        Token::Word(word)
    }
}

/// Tokenize a raw input line into a sequence of [`Token`]s.
///
/// Handles single quotes, double quotes (with POSIX-compliant backslash
/// escaping), bare backslash escapes, and classifies redirect operators
/// and pipes.
pub fn tokenize(input: &str) -> (tokens: Vec<Token>)
    ensures
        tokens@.len() == spec_split_words(input@).len(),
        forall|i: int|
            0 <= i < tokens@.len() ==> classifies_as(
                spec_split_words(input@)[i],
                #[trigger] tokens@[i],
            ),
{
    let raw_words = split_words(input);
    let ghost words = string_views(raw_words@);
    let mut tokens: Vec<Token> = Vec::new();
    let mut i: usize = 0;
    while i < raw_words.len()
        invariant
            i <= raw_words@.len(),
            words == string_views(raw_words@),
            words == spec_split_words(input@),
            tokens@.len() == i,
            forall|j: int| 0 <= j < i ==> classifies_as(words[j], #[trigger] tokens@[j]),
        decreases raw_words@.len() - i,
    {
        let t = classify(raw_words[i].clone());
        tokens.push(t);
        i = i + 1;
    }
    tokens
}


/// No word is empty.
pub open spec fn all_nonempty(words: Seq<Seq<char>>) -> bool {
    forall|i: int| 0 <= i < words.len() ==> (#[trigger] words[i]).len() > 0
}

proof fn lemma_push_nonempty(words: Seq<Seq<char>>, w: Seq<char>)
    requires
        all_nonempty(words),
        w.len() > 0,
    ensures
        all_nonempty(words.push(w)),
{
    assert forall|i: int| 0 <= i < words.push(w).len() implies (#[trigger] words.push(w)[i]).len() > 0 by {
        if i < words.len() {
            assert(words.push(w)[i] == words[i]);
        }
    }
}

/// Splitting from any state whose finished words are not empty gives no
/// empty word; `mode` is 0 outside quotes, 1 in single quotes, 2 in double
/// quotes.
proof fn lemma_split_nonempty(mode: int, rest: Seq<char>, words: Seq<Seq<char>>, cur: Seq<char>)
    requires
        all_nonempty(words),
    ensures
        mode == 0 ==> all_nonempty(split_plain(rest, words, cur)),
        mode == 1 ==> all_nonempty(split_single(rest, words, cur)),
        mode == 2 ==> all_nonempty(split_double(rest, words, cur)),
    decreases rest.len(),
{
    if rest.len() == 0 {
        if cur.len() > 0 {
            lemma_push_nonempty(words, cur);
        }
    } else {
        let ch = rest[0];
        let tail = rest.drop_first();
        if mode == 0 {
            if ch == '\\' {
                if tail.len() > 0 {
                    lemma_split_nonempty(0, tail.drop_first(), words, cur.push(tail[0]));
                } else {
                    lemma_split_nonempty(0, tail, words, cur);
                }
            } else if ch == '\'' {
                lemma_split_nonempty(1, tail, words, cur);
            } else if ch == '"' {
                lemma_split_nonempty(2, tail, words, cur);
            } else if is_white_space(ch) {
                if cur.len() > 0 {
                    lemma_push_nonempty(words, cur);
                    lemma_split_nonempty(0, tail, words.push(cur), Seq::empty());
                } else {
                    lemma_split_nonempty(0, tail, words, cur);
                }
            } else {
                lemma_split_nonempty(0, tail, words, cur.push(ch));
            }
        } else if mode == 1 {
            if ch == '\'' {
                lemma_split_nonempty(0, tail, words, cur);
            } else {
                lemma_split_nonempty(1, tail, words, cur.push(ch));
            }
        } else if mode == 2 {
            if ch == '\\' && tail.len() > 0 {
                if escapable_in_double_quotes(tail[0]) {
                    lemma_split_nonempty(2, tail.drop_first(), words, cur.push(tail[0]));
                } else {
                    lemma_split_nonempty(2, tail, words, cur.push('\\'));
                }
            } else if ch == '"' {
                lemma_split_nonempty(0, tail, words, cur);
            } else {
                lemma_split_nonempty(2, tail, words, cur.push(ch));
            }
        }
    }
}

/// Law: splitting a line never yields an empty word.
pub proof fn lemma_words_nonempty(input: Seq<char>)
    ensures
        all_nonempty(spec_split_words(input)),
{
    lemma_split_nonempty(0, trim_end(input), Seq::empty(), Seq::empty());
}

/// Every redirect operator ends with `>`.
proof fn lemma_redirect_ends_with_gt(w: Seq<char>)
    ensures
        redirect_of(w) is Some ==> w.len() > 0 && w.last() == '>',
{
}

/// Law: each word is classified as exactly one kind of token, and a word
/// token carries exactly the word: operators are recognised only as whole
/// words.
pub proof fn lemma_classification_unambiguous(w: Seq<char>, t: Token)
    requires
        classifies_as(w, t),
    ensures
        t matches Token::Word(s) ==> s@ == w,
        t is Pipe <==> w == seq!['|'],
        t is Ampersand <==> w == seq!['&'],
        t is Redirect <==> redirect_of(w) is Some,
{
    lemma_redirect_ends_with_gt(w);
    assert(seq!['|'].last() == '|');
    assert(seq!['&'].last() == '&');
}

/// The words finished before are kept, in front, whatever follows; `mode`
/// is 0 outside quotes, 1 in single quotes, 2 in double quotes.
proof fn lemma_split_keeps_done(mode: int, rest: Seq<char>, words: Seq<Seq<char>>, cur: Seq<char>)
    ensures
        mode == 0 ==> split_plain(rest, words, cur) == words + split_plain(rest, Seq::empty(), cur),
        mode == 1 ==> split_single(rest, words, cur) == words + split_single(
            rest,
            Seq::empty(),
            cur,
        ),
        mode == 2 ==> split_double(rest, words, cur) == words + split_double(
            rest,
            Seq::empty(),
            cur,
        ),
    decreases rest.len(),
{
    let e: Seq<Seq<char>> = Seq::empty();
    if rest.len() == 0 {
        if cur.len() > 0 {
            assert(words.push(cur) =~= words + e.push(cur));
        } else {
            assert(words =~= words + e);
        }
    } else {
        let ch = rest[0];
        let tail = rest.drop_first();
        if mode == 0 {
            if ch == '\\' {
                if tail.len() > 0 {
                    lemma_split_keeps_done(0, tail.drop_first(), words, cur.push(tail[0]));
                } else {
                    lemma_split_keeps_done(0, tail, words, cur);
                }
            } else if ch == '\'' {
                lemma_split_keeps_done(1, tail, words, cur);
            } else if ch == '"' {
                lemma_split_keeps_done(2, tail, words, cur);
            } else if is_white_space(ch) {
                if cur.len() > 0 {
                    lemma_split_keeps_done(0, tail, words.push(cur), Seq::empty());
                    lemma_split_keeps_done(0, tail, e.push(cur), Seq::empty());
                    let x = split_plain(tail, e, Seq::empty());
                    assert(words.push(cur) + x =~= words + (e.push(cur) + x));
                } else {
                    lemma_split_keeps_done(0, tail, words, cur);
                }
            } else {
                lemma_split_keeps_done(0, tail, words, cur.push(ch));
            }
        } else if mode == 1 {
            if ch == '\'' {
                lemma_split_keeps_done(0, tail, words, cur);
            } else {
                lemma_split_keeps_done(1, tail, words, cur.push(ch));
            }
        } else if mode == 2 {
            if ch == '\\' && tail.len() > 0 {
                if escapable_in_double_quotes(tail[0]) {
                    lemma_split_keeps_done(2, tail.drop_first(), words, cur.push(tail[0]));
                } else {
                    lemma_split_keeps_done(2, tail, words, cur.push('\\'));
                }
            } else if ch == '"' {
                lemma_split_keeps_done(0, tail, words, cur);
            } else {
                lemma_split_keeps_done(2, tail, words, cur.push(ch));
            }
        }
    }
}

/// Inside double quotes, text with no quote and no backslash is taken as
/// it stands.
proof fn lemma_double_takes_plain_text(
    t: Seq<char>,
    x: Seq<char>,
    words: Seq<Seq<char>>,
    cur: Seq<char>,
)
    requires
        !t.contains('"'),
        !t.contains('\\'),
    ensures
        split_double(t + x, words, cur) == split_double(x, words, cur + t),
    decreases t.len(),
{
    if t.len() == 0 {
        assert(t + x =~= x);
        assert(cur + t =~= cur);
    } else {
        let s = t + x;
        assert(s[0] == t[0]);
        assert(s.drop_first() =~= t.drop_first() + x);
        assert(!t.drop_first().contains('"')) by {
            if t.drop_first().contains('"') {
                let k = choose|k: int| 0 <= k < t.drop_first().len() && t.drop_first()[k] == '"';
                assert(t[k + 1] == '"');
            }
        }
        assert(!t.drop_first().contains('\\')) by {
            if t.drop_first().contains('\\') {
                let k = choose|k: int| 0 <= k < t.drop_first().len() && t.drop_first()[k] == '\\';
                assert(t[k + 1] == '\\');
            }
        }
        assert(t[0] != '"' && t[0] != '\\') by {
            if t[0] == '"' || t[0] == '\\' {
                assert(t.contains(t[0]));
            }
        }
        lemma_double_takes_plain_text(t.drop_first(), x, words, cur.push(t[0]));
        assert(cur.push(t[0]) + t.drop_first() =~= cur + t);
    }
}

/// Trailing white space of a line comes only from its end: trimming
/// `a + b` trims `b`, and reaches into `a` only when `b` is all white space.
proof fn lemma_trim_end_concat(a: Seq<char>, b: Seq<char>)
    ensures
        trim_end(b).len() > 0 ==> trim_end(a + b) == a + trim_end(b),
        trim_end(b).len() == 0 ==> trim_end(a + b) == trim_end(a),
    decreases b.len(),
{
    if b.len() == 0 {
        assert(a + b =~= a);
    } else {
        assert((a + b).last() == b.last());
        if is_white_space(b.last()) {
            assert((a + b).drop_last() =~= a + b.drop_last());
            lemma_trim_end_concat(a, b.drop_last());
        } else {
            assert(trim_end(b) == b);
        }
    }
}

/// Law: a closing double quote ends the quoted part and splitting goes on
/// outside quotes: for any text `t` without quotes or backslashes (spaces
/// included) and any `r`, the line `"t" r` gives the word `t` followed by
/// the words of `r`.
pub proof fn lemma_closing_quote_resumes_splitting(t: Seq<char>, r: Seq<char>)
    requires
        t.len() > 0,
        !t.contains('"'),
        !t.contains('\\'),
    ensures
        spec_split_words(seq!['"'] + t + seq!['"', ' '] + r) == seq![t] + spec_split_words(r),
{
    let e: Seq<Seq<char>> = Seq::empty();
    let head = seq!['"'] + t + seq!['"', ' '];
    let input = head + r;
    assert(seq!['"'] + t + seq!['"', ' '] + r =~= input);
    lemma_trim_end_concat(head, r);
    let rr = trim_end(r);
    if rr.len() > 0 {
        let s = head + rr;
        assert(trim_end(input) == s);
        assert(s[0] == '"');
        assert(s.drop_first() =~= t + (seq!['"', ' '] + rr));
        lemma_double_takes_plain_text(t, seq!['"', ' '] + rr, e, Seq::empty());
        assert(Seq::<char>::empty() + t =~= t);
        let s2 = seq!['"', ' '] + rr;
        assert(s2[0] == '"');
        assert(s2.drop_first() =~= seq![' '] + rr);
        let s3 = seq![' '] + rr;
        assert(s3[0] == ' ');
        assert(is_white_space(' '));
        assert(s3.drop_first() =~= rr);
        lemma_split_keeps_done(0, rr, e.push(t), Seq::empty());
        assert(e.push(t) =~= seq![t]);
        let z: Seq<char> = Seq::empty();
        assert(split_plain(s, e, z) == split_double(s.drop_first(), e, z));
        assert(split_double(s2, e, t) == split_plain(s3, e, t));
        assert(split_plain(s3, e, t) == split_plain(rr, e.push(t), z));
        assert(spec_split_words(input) == split_plain(s, e, z));
        assert(spec_split_words(r) == split_plain(rr, e, z));
    } else {
        let h = seq!['"'] + t + seq!['"'];
        assert(head.drop_last() =~= h);
        assert(is_white_space(head.last()));
        assert(trim_end(h) == h);
        assert(trim_end(input) == h);
        assert(h[0] == '"');
        assert(h.drop_first() =~= t + seq!['"']);
        lemma_double_takes_plain_text(t, seq!['"'], e, Seq::empty());
        assert(Seq::<char>::empty() + t =~= t);
        let q = seq!['"'];
        assert(q.drop_first() =~= Seq::<char>::empty());
        assert(spec_split_words(r) == split_plain(rr, e, Seq::empty()));
        assert(rr =~= Seq::<char>::empty());
        assert(e.push(t) =~= seq![t] + e);
        let z: Seq<char> = Seq::empty();
        assert(split_plain(h, e, z) == split_double(h.drop_first(), e, z));
        assert(split_double(q, e, t) == split_plain(q.drop_first(), e, t));
        assert(split_plain(q.drop_first(), e, t) == e.push(t));
        assert(spec_split_words(input) == split_plain(h, e, z));
        assert(split_plain(rr, e, z) == e);
    }
}

/// A plain word: not empty, with no white space, quote or backslash.
pub open spec fn plain_word(w: Seq<char>) -> bool {
    &&& w.len() > 0
    &&& forall|k: int|
        0 <= k < w.len() ==> !is_white_space(#[trigger] w[k]) && w[k] != '"' && w[k] != '\''
            && w[k] != '\\'
}

/// Outside quotes, the characters of a plain word are taken as they stand.
proof fn lemma_plain_takes_word(w: Seq<char>, x: Seq<char>, words: Seq<Seq<char>>, cur: Seq<char>)
    requires
        forall|k: int|
            0 <= k < w.len() ==> !is_white_space(#[trigger] w[k]) && w[k] != '"' && w[k] != '\''
                && w[k] != '\\',
    ensures
        split_plain(w + x, words, cur) == split_plain(x, words, cur + w),
    decreases w.len(),
{
    if w.len() == 0 {
        assert(w + x =~= x);
        assert(cur + w =~= cur);
    } else {
        let s = w + x;
        assert(s[0] == w[0]);
        assert(s.drop_first() =~= w.drop_first() + x);
        assert(!is_white_space(w[0]) && w[0] != '"' && w[0] != '\'' && w[0] != '\\');
        lemma_plain_takes_word(w.drop_first(), x, words, cur.push(w[0]));
        assert(cur.push(w[0]) + w.drop_first() =~= cur + w);
    }
}

/// Inside single quotes, text with no single quote is taken as it stands.
proof fn lemma_single_takes_text(t: Seq<char>, x: Seq<char>, words: Seq<Seq<char>>, cur: Seq<char>)
    requires
        !t.contains('\''),
    ensures
        split_single(t + x, words, cur) == split_single(x, words, cur + t),
    decreases t.len(),
{
    if t.len() == 0 {
        assert(t + x =~= x);
        assert(cur + t =~= cur);
    } else {
        let s = t + x;
        assert(s[0] == t[0]);
        assert(s.drop_first() =~= t.drop_first() + x);
        assert(!t.drop_first().contains('\'')) by {
            if t.drop_first().contains('\'') {
                let k = choose|k: int| 0 <= k < t.drop_first().len() && t.drop_first()[k] == '\'';
                assert(t[k + 1] == '\'');
            }
        }
        assert(t[0] != '\'') by {
            if t[0] == '\'' {
                assert(t.contains(t[0]));
            }
        }
        lemma_single_takes_text(t.drop_first(), x, words, cur.push(t[0]));
        assert(cur.push(t[0]) + t.drop_first() =~= cur + t);
    }
}

/// Law: a plain word followed by white space is a word of its own, and the
/// rest of the line is split as a line of its own: `w r` gives `w` followed
/// by the words of `r`.
pub proof fn lemma_plain_word_then_rest(w: Seq<char>, r: Seq<char>)
    requires
        plain_word(w),
    ensures
        spec_split_words(w + seq![' '] + r) == seq![w] + spec_split_words(r),
{
    let e: Seq<Seq<char>> = Seq::empty();
    let z: Seq<char> = Seq::empty();
    let head = w + seq![' '];
    let input = head + r;
    assert(w + seq![' '] + r =~= input);
    lemma_trim_end_concat(head, r);
    let rr = trim_end(r);
    assert(z + w =~= w);
    assert(e.push(w) =~= seq![w]);
    assert(is_white_space(' '));
    if rr.len() > 0 {
        assert(trim_end(input) == head + rr);
        assert(head + rr =~= w + (seq![' '] + rr));
        lemma_plain_takes_word(w, seq![' '] + rr, e, z);
        let s3 = seq![' '] + rr;
        assert(s3[0] == ' ');
        assert(s3.drop_first() =~= rr);
        assert(split_plain(s3, e, w) == split_plain(rr, e.push(w), z));
        lemma_split_keeps_done(0, rr, e.push(w), z);
        assert(spec_split_words(r) == split_plain(rr, e, z));
    } else {
        assert(head.drop_last() =~= w);
        assert(!is_white_space(w.last()));
        assert(trim_end(w) == w);
        assert(trim_end(input) == w);
        assert(w =~= w + z);
        lemma_plain_takes_word(w, z, e, z);
        assert(split_plain(z, e, w) == e.push(w));
        assert(rr =~= z);
        assert(split_plain(rr, e, z) == e);
        assert(e.push(w) =~= seq![w] + e);
    }
}

/// Law: a closing single quote ends the quoted part: for any text `t`
/// without single quotes (spaces, double quotes and backslashes included)
/// and any `r`, the line `'t' r` gives the word `t`, as written, followed
/// by the words of `r`.
pub proof fn lemma_closing_single_quote_resumes_splitting(t: Seq<char>, r: Seq<char>)
    requires
        t.len() > 0,
        !t.contains('\''),
    ensures
        spec_split_words(seq!['\''] + t + seq!['\'', ' '] + r) == seq![t] + spec_split_words(r),
{
    let e: Seq<Seq<char>> = Seq::empty();
    let z: Seq<char> = Seq::empty();
    let head = seq!['\''] + t + seq!['\'', ' '];
    let input = head + r;
    assert(seq!['\''] + t + seq!['\'', ' '] + r =~= input);
    lemma_trim_end_concat(head, r);
    let rr = trim_end(r);
    assert(z + t =~= t);
    assert(e.push(t) =~= seq![t]);
    assert(is_white_space(' '));
    if rr.len() > 0 {
        let s = head + rr;
        assert(trim_end(input) == s);
        assert(s[0] == '\'');
        assert(s.drop_first() =~= t + (seq!['\'', ' '] + rr));
        lemma_single_takes_text(t, seq!['\'', ' '] + rr, e, z);
        let s2 = seq!['\'', ' '] + rr;
        assert(s2[0] == '\'');
        assert(s2.drop_first() =~= seq![' '] + rr);
        let s3 = seq![' '] + rr;
        assert(s3[0] == ' ');
        assert(s3.drop_first() =~= rr);
        assert(split_plain(s, e, z) == split_single(s.drop_first(), e, z));
        assert(split_single(s2, e, t) == split_plain(s3, e, t));
        assert(split_plain(s3, e, t) == split_plain(rr, e.push(t), z));
        lemma_split_keeps_done(0, rr, e.push(t), z);
        assert(spec_split_words(input) == split_plain(s, e, z));
        assert(spec_split_words(r) == split_plain(rr, e, z));
    } else {
        let h = seq!['\''] + t + seq!['\''];
        assert(head.drop_last() =~= h);
        assert(trim_end(h) == h);
        assert(trim_end(input) == h);
        assert(h[0] == '\'');
        assert(h.drop_first() =~= t + seq!['\'']);
        lemma_single_takes_text(t, seq!['\''], e, z);
        let q = seq!['\''];
        assert(q.drop_first() =~= z);
        assert(split_plain(h, e, z) == split_single(h.drop_first(), e, z));
        assert(split_single(q, e, t) == split_plain(q.drop_first(), e, t));
        assert(split_plain(q.drop_first(), e, t) == e.push(t));
        assert(spec_split_words(input) == split_plain(h, e, z));
        assert(rr =~= z);
        assert(split_plain(rr, e, z) == e);
        assert(e.push(t) =~= seq![t] + e);
    }
}

} // verus!
