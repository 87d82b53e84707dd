use vstd::prelude::*;

use crate::text::string_views;
use crate::tokenizer::{RedirectMode, Token};

verus! {

/// A single I/O redirection (e.g. `2> errors.log`).
#[derive(Debug)]
pub struct Redirect {
    pub fd: u32,
    pub mode: RedirectMode,
    pub target: String,
}

/// A simple command: a program name, arguments, and zero or more redirections.
#[derive(Debug)]
pub struct SimpleCommand {
    pub program: String,
    pub args: Vec<String>,
    pub redirects: Vec<Redirect>,
    pub is_background: bool,
}

/// A pipeline of one or more [`SimpleCommand`]s connected by pipes.
///
/// Currently only single-command pipelines are executed, but the
/// structure is ready for multi-command pipes in the future.
#[derive(Debug)]
pub struct Pipeline {
    pub commands: Vec<SimpleCommand>,
}

/// What a [`Redirect`] holds, as values.
pub struct RedirectSpec {
    pub fd: u32,
    pub mode: RedirectMode,
    pub target: Seq<char>,
}

/// What a [`SimpleCommand`] holds, as values.
pub struct CommandSpec {
    pub program: Seq<char>,
    pub args: Seq<Seq<char>>,
    pub redirects: Seq<RedirectSpec>,
    pub is_background: bool,
}

impl View for Redirect {
    type V = RedirectSpec;

    open spec fn view(&self) -> RedirectSpec {
        RedirectSpec { fd: self.fd, mode: self.mode, target: self.target@ }
    }
}

impl View for SimpleCommand {
    type V = CommandSpec;

    open spec fn view(&self) -> CommandSpec {
        CommandSpec {
            program: self.program@,
            args: string_views(self.args@),
            redirects: self.redirects@.map_values(|r: Redirect| r@),
            is_background: self.is_background,
        }
    }
}

impl View for Pipeline {
    type V = Seq<CommandSpec>;

    open spec fn view(&self) -> Seq<CommandSpec> {
        self.commands@.map_values(|c: SimpleCommand| c@)
    }
}

impl Pipeline {
    /// Whether the pipeline holds no command.
    pub fn is_empty(&self) -> (r: bool)
        ensures
            r == (self@.len() == 0),
    {
        self.commands.len() == 0
    }
}

/// The commands that the tokens `toks` still add to the finished commands
/// `done`, given the program, arguments and redirections gathered so far
/// for the command being built.
///
/// A word names the program, then the arguments; a redirect takes the next
/// token as its target if that is a word, and is ignored otherwise; a pipe
/// ends the command being built (in the foreground) and an ampersand ends it
/// as a background command, if it has a program; at the end, a command with
/// a program is added in the foreground.
pub open spec fn parse_from(
    toks: Seq<Token>,
    done: Seq<CommandSpec>,
    program: Option<Seq<char>>,
    args: Seq<Seq<char>>,
    redirects: Seq<RedirectSpec>,
) -> Seq<CommandSpec>
    decreases toks.len(),
{
    if toks.len() == 0 {
        match program {
            Some(p) => done.push(
                CommandSpec { program: p, args: args, redirects: redirects, is_background: false },
            ),
            None => done,
        }
    } else {
        let rest = toks.drop_first();
        match toks[0] {
            Token::Word(w) => {
                if program is None {
                    parse_from(rest, done, Some(w@), args, redirects)
                } else {
                    parse_from(rest, done, program, args.push(w@), redirects)
                }
            },
            Token::Redirect { fd, mode } => {
                if rest.len() > 0 {
                    match rest[0] {
                        Token::Word(t) => parse_from(
                            rest.drop_first(),
                            done,
                            program,
                            args,
                            redirects.push(RedirectSpec { fd: fd, mode: mode, target: t@ }),
                        ),
                        _ => parse_from(rest, done, program, args, redirects),
                    }
                } else {
                    parse_from(rest, done, program, args, redirects)
                }
            },
            _ => {
                match program {
                    Some(p) => parse_from(
                        rest,
                        done.push(
                            CommandSpec {
                                program: p,
                                args: args,
                                redirects: redirects,
                                is_background: toks[0] is Ampersand,
                            },
                        ),
                        None,
                        Seq::empty(),
                        Seq::empty(),
                    ),
                    None => parse_from(rest, done, program, args, redirects),
                }
            },
        }
    }
}

/// The commands that parsing `toks` yields.
pub open spec fn spec_parse(toks: Seq<Token>) -> Seq<CommandSpec> {
    parse_from(toks, Seq::empty(), None, Seq::empty(), Seq::empty())
}

fn copy_string(s: &String) -> (r: String)
    ensures
        r@ == s@,
{
    s.clone()
}

/// Parse a sequence of tokens into a [`Pipeline`].
///
/// Tokens are consumed left-to-right. `Word` tokens fill the current
/// command's program/args. `Redirect` tokens consume the next `Word`
/// as a filename. `Pipe` tokens finalize the current command and start
/// a new one.
pub fn parse(tokens: Vec<Token>) -> (pipeline: Pipeline)
    ensures
        pipeline@ == spec_parse(tokens@),
{
    let ghost toks = tokens@;
    let mut commands: Vec<SimpleCommand> = Vec::new();
    let mut program: Option<String> = None;
    let mut args: Vec<String> = Vec::new();
    let mut redirects: Vec<Redirect> = Vec::new();
    let n = tokens.len();
    let mut i: usize = 0;
    assert(toks.skip(0) =~= toks);
    assert(commands@.map_values(|c: SimpleCommand| c@) =~= Seq::<CommandSpec>::empty());
    assert(string_views(args@) =~= Seq::<Seq<char>>::empty());
    assert(redirects@.map_values(|r: Redirect| r@) =~= Seq::<RedirectSpec>::empty());
    while i < n
        invariant
            n == tokens@.len(),
            toks == tokens@,
            i <= n,
            parse_from(
                toks.skip(i as int),
                commands@.map_values(|c: SimpleCommand| c@),
                match program {
                    Some(p) => Some(p@),
                    None => None,
                },
                string_views(args@),
                redirects@.map_values(|r: Redirect| r@),
            ) == spec_parse(toks),
            program is None ==> args@.len() == 0,
        decreases n - i,
    {
        let ghost rest = toks.skip(i as int);
        let ghost cv = commands@.map_values(|c: SimpleCommand| c@);
        let ghost av = string_views(args@);
        let ghost rv = redirects@.map_values(|r: Redirect| r@);
        assert(rest[0] == toks[i as int]);
        assert(rest.drop_first() =~= toks.skip(i + 1));
        match &tokens[i] {
            Token::Word(w) => {
                if program.is_none() {
                    program = Some(copy_string(w));
                } else {
                    args.push(copy_string(w));
                    assert(string_views(args@) =~= av.push(w@));
                }
                i = i + 1;
            },
            Token::Redirect { fd, mode } => {
                // The next Word token is the redirect target filename.
                if i + 1 < n {
                    assert(rest.drop_first()[0] == toks[i + 1]);
                    assert(rest.drop_first().drop_first() =~= toks.skip(i + 2));
                    match &tokens[i + 1] {
                        Token::Word(target) => {
                            redirects.push(
                                Redirect { fd: *fd, mode: *mode, target: copy_string(target) },
                            );
                            assert(redirects@.map_values(|r: Redirect| r@) =~= rv.push(
                                RedirectSpec { fd: *fd, mode: *mode, target: target@ },
                            ));
                            i = i + 2;
                        },
                        _ => {
                            // If there is no following Word, the redirect is
                            // silently ignored.
                            i = i + 1;
                        },
                    }
                } else {
                    i = i + 1;
                }
            },
            _ => {
                // A pipe finalizes the current command and starts a fresh one;
                // an ampersand runs the current command in the background.
                let background = match &tokens[i] {
                    Token::Ampersand => true,
                    _ => false,
                };
                match program {
                    Some(prog) => {
                        let ghost spec_cmd = CommandSpec {
                            program: prog@,
                            args: av,
                            redirects: rv,
                            is_background: background,
                        };
                        let cmd_args = args;
                        let cmd_redirects = redirects;
                        let cmd = SimpleCommand {
                            program: prog,
                            args: cmd_args,
                            redirects: cmd_redirects,
                            is_background: background,
                        };
                        commands.push(cmd);
                        assert(commands@.map_values(|c: SimpleCommand| c@) =~= cv.push(spec_cmd));
                        program = None;
                        args = Vec::new();
                        redirects = Vec::new();
                        assert(string_views(args@) =~= Seq::<Seq<char>>::empty());
                        assert(redirects@.map_values(|r: Redirect| r@)
                            =~= Seq::<RedirectSpec>::empty());
                    },
                    None => {
                        program = None;
                    },
                }
                i = i + 1;
            },
        }
    }
    assert(toks.skip(i as int).len() == 0);
    // Push the last (or only) command.
    match program {
        Some(prog) => {
            let cmd = SimpleCommand {
                program: prog,
                args: args,
                redirects: redirects,
                is_background: false,
            };
            commands.push(cmd);
        },
        None => {},
    }
    let pipeline = Pipeline { commands };
    pipeline
}

/// Law: a command runs in the background only when an `&` ended it: a line
/// without `&` gives only foreground commands, however many `|` it holds.
pub proof fn lemma_foreground_without_ampersand(toks: Seq<Token>)
    requires
        forall|i: int| 0 <= i < toks.len() ==> !(#[trigger] toks[i] is Ampersand),
    ensures
        forall|i: int|
            0 <= i < spec_parse(toks).len() ==> !(#[trigger] spec_parse(toks)[i]).is_background,
{
    lemma_parse_from_foreground(toks, Seq::empty(), None, Seq::empty(), Seq::empty());
}

proof fn lemma_parse_from_foreground(
    toks: Seq<Token>,
    done: Seq<CommandSpec>,
    program: Option<Seq<char>>,
    args: Seq<Seq<char>>,
    redirects: Seq<RedirectSpec>,
)
    requires
        forall|i: int| 0 <= i < toks.len() ==> !(#[trigger] toks[i] is Ampersand),
        forall|i: int| 0 <= i < done.len() ==> !(#[trigger] done[i]).is_background,
    ensures
        ({
            let out = parse_from(toks, done, program, args, redirects);
            forall|i: int| 0 <= i < out.len() ==> !(#[trigger] out[i]).is_background
        }),
    decreases toks.len(),
{
    if toks.len() > 0 {
        let rest = toks.drop_first();
        let out = parse_from(toks, done, program, args, redirects);
        assert forall|i: int| 0 <= i < rest.len() implies !(#[trigger] rest[i] is Ampersand) by {
            assert(rest[i] == toks[i + 1]);
        }
        match toks[0] {
            Token::Word(w) => {
                if program is None {
                    lemma_parse_from_foreground(rest, done, Some(w@), args, redirects);
                    assert(out == parse_from(rest, done, Some(w@), args, redirects));
                } else {
                    lemma_parse_from_foreground(rest, done, program, args.push(w@), redirects);
                    assert(out == parse_from(rest, done, program, args.push(w@), redirects));
                }
            },
            Token::Redirect { fd, mode } => {
                if rest.len() > 0 {
                    match rest[0] {
                        Token::Word(t) => {
                            let r2 = rest.drop_first();
                            assert forall|i: int| 0 <= i < r2.len() implies !(
                            #[trigger] r2[i] is Ampersand) by {
                                assert(r2[i] == rest[i + 1]);
                            }
                            lemma_parse_from_foreground(
                                r2,
                                done,
                                program,
                                args,
                                redirects.push(RedirectSpec { fd: fd, mode: mode, target: t@ }),
                            );
                            assert(out == parse_from(
                                r2,
                                done,
                                program,
                                args,
                                redirects.push(RedirectSpec { fd: fd, mode: mode, target: t@ }),
                            ));
                        },
                        _ => {
                            lemma_parse_from_foreground(rest, done, program, args, redirects);
                            assert(out == parse_from(rest, done, program, args, redirects));
                        },
                    }
                } else {
                    lemma_parse_from_foreground(rest, done, program, args, redirects);
                    assert(out == parse_from(rest, done, program, args, redirects));
                }
            },
            _ => {
                assert(!(toks[0] is Ampersand));
                match program {
                    Some(p) => {
                        let d2 = done.push(
                            CommandSpec {
                                program: p,
                                args: args,
                                redirects: redirects,
                                is_background: toks[0] is Ampersand,
                            },
                        );
                        assert forall|i: int| 0 <= i < d2.len() implies !(
                        #[trigger] d2[i]).is_background by {
                            if i < done.len() {
                                assert(d2[i] == done[i]);
                            }
                        }
                        lemma_parse_from_foreground(rest, d2, None, Seq::empty(), Seq::empty());
                        assert(out == parse_from(rest, d2, None, Seq::empty(), Seq::empty()));
                    },
                    None => {
                        lemma_parse_from_foreground(rest, done, program, args, redirects);
                        assert(out == parse_from(rest, done, program, args, redirects));
                    },
                }
            },
        }
    } else {
        let out = parse_from(toks, done, program, args, redirects);
        assert forall|i: int| 0 <= i < out.len() implies !(#[trigger] out[i]).is_background by {
            if i < done.len() {
                assert(out[i] == done[i]);
            } else {
                assert(out[i] == CommandSpec {
                    program: program.unwrap(),
                    args: args,
                    redirects: redirects,
                    is_background: false,
                });
            }
        }
    }
}

/// The token sequence does not end with a redirect.
pub open spec fn no_trailing_redirect(toks: Seq<Token>) -> bool {
    toks.len() == 0 || !(toks.last() is Redirect)
}

/// Law: a redirect that is not followed by a word is ignored: parsing goes
/// on as if it were not there (the token after it is kept).
pub proof fn lemma_redirect_without_target_ignored(
    before: Seq<Token>,
    fd: u32,
    mode: RedirectMode,
    after: Seq<Token>,
)
    requires
        no_trailing_redirect(before),
        after.len() == 0 || !(after[0] is Word),
    ensures
        spec_parse(before + seq![Token::Redirect { fd: fd, mode: mode }] + after) == spec_parse(
            before + after,
        ),
{
    lemma_redirect_ignored_from(
        before,
        fd,
        mode,
        after,
        Seq::empty(),
        None,
        Seq::empty(),
        Seq::empty(),
    );
}

proof fn lemma_redirect_ignored_from(
    before: Seq<Token>,
    fd: u32,
    mode: RedirectMode,
    after: Seq<Token>,
    done: Seq<CommandSpec>,
    program: Option<Seq<char>>,
    args: Seq<Seq<char>>,
    redirects: Seq<RedirectSpec>,
)
    requires
        no_trailing_redirect(before),
        after.len() == 0 || !(after[0] is Word),
    ensures
        parse_from(
            before + seq![Token::Redirect { fd: fd, mode: mode }] + after,
            done,
            program,
            args,
            redirects,
        ) == parse_from(before + after, done, program, args, redirects),
    decreases before.len(),
{
    let r = Token::Redirect { fd: fd, mode: mode };
    let with = before + seq![r] + after;
    let without = before + after;
    if before.len() == 0 {
        assert(with =~= seq![r] + after);
        assert(without =~= after);
        assert(with.drop_first() =~= after);
    } else {
        assert(with[0] == before[0]);
        assert(without[0] == before[0]);
        let b1 = before.drop_first();
        assert(with.drop_first() =~= b1 + seq![r] + after);
        assert(without.drop_first() =~= b1 + after);
        match before[0] {
            Token::Redirect { fd: f0, mode: m0 } => {
                assert(before.len() >= 2);
                assert(with.drop_first()[0] == before[1]);
                assert(without.drop_first()[0] == before[1]);
                let b2 = b1.drop_first();
                assert(with.drop_first().drop_first() =~= b2 + seq![r] + after);
                assert(without.drop_first().drop_first() =~= b2 + after);
                match before[1] {
                    Token::Word(t) => {
                        assert(b2.len() == 0 || b2.last() == before.last());
                        lemma_redirect_ignored_from(
                            b2,
                            fd,
                            mode,
                            after,
                            done,
                            program,
                            args,
                            redirects.push(RedirectSpec { fd: f0, mode: m0, target: t@ }),
                        );
                    },
                    _ => {
                        assert(b1.last() == before.last());
                        lemma_redirect_ignored_from(
                            b1,
                            fd,
                            mode,
                            after,
                            done,
                            program,
                            args,
                            redirects,
                        );
                    },
                }
            },
            Token::Word(w) => {
                assert(b1.len() == 0 || b1.last() == before.last());
                if program is None {
                    lemma_redirect_ignored_from(b1, fd, mode, after, done, Some(w@), args, redirects);
                } else {
                    lemma_redirect_ignored_from(
                        b1,
                        fd,
                        mode,
                        after,
                        done,
                        program,
                        args.push(w@),
                        redirects,
                    );
                }
            },
            _ => {
                assert(b1.len() == 0 || b1.last() == before.last());
                match program {
                    Some(p) => lemma_redirect_ignored_from(
                        b1,
                        fd,
                        mode,
                        after,
                        done.push(
                            CommandSpec {
                                program: p,
                                args: args,
                                redirects: redirects,
                                is_background: before[0] is Ampersand,
                            },
                        ),
                        None,
                        Seq::empty(),
                        Seq::empty(),
                    ),
                    None => lemma_redirect_ignored_from(
                        b1,
                        fd,
                        mode,
                        after,
                        done,
                        program,
                        args,
                        redirects,
                    ),
                }
            },
        }
    }
}

/// The word tokens of `ws`, in order.
pub open spec fn word_tokens(ws: Seq<String>) -> Seq<Token> {
    ws.map_values(|w: String| Token::Word(w))
}

/// Words after the program are added, in order, to the arguments.
proof fn lemma_words_become_args(
    ws: Seq<String>,
    tail: Seq<Token>,
    done: Seq<CommandSpec>,
    program: Seq<char>,
    args: Seq<Seq<char>>,
    redirects: Seq<RedirectSpec>,
)
    ensures
        parse_from(word_tokens(ws) + tail, done, Some(program), args, redirects) == parse_from(
            tail,
            done,
            Some(program),
            args + string_views(ws),
            redirects,
        ),
    decreases ws.len(),
{
    let toks = word_tokens(ws) + tail;
    if ws.len() == 0 {
        assert(toks =~= tail);
        assert(args + string_views(ws) =~= args);
    } else {
        let w = ws[0];
        assert(toks[0] == Token::Word(w));
        assert(toks.drop_first() =~= word_tokens(ws.drop_first()) + tail);
        lemma_words_become_args(ws.drop_first(), tail, done, program, args.push(w@), redirects);
        assert(args.push(w@) + string_views(ws.drop_first()) =~= args + string_views(ws));
    }
}

/// The commands finished before are kept, in front, whatever follows.
proof fn lemma_done_kept_in_front(
    toks: Seq<Token>,
    done: Seq<CommandSpec>,
    program: Option<Seq<char>>,
    args: Seq<Seq<char>>,
    redirects: Seq<RedirectSpec>,
)
    ensures
        parse_from(toks, done, program, args, redirects) == done + parse_from(
            toks,
            Seq::empty(),
            program,
            args,
            redirects,
        ),
    decreases toks.len(),
{
    if toks.len() == 0 {
        match program {
            Some(p) => {
                let c = CommandSpec {
                    program: p,
                    args: args,
                    redirects: redirects,
                    is_background: false,
                };
                assert(done.push(c) =~= done + Seq::<CommandSpec>::empty().push(c));
            },
            None => {
                assert(done =~= done + Seq::<CommandSpec>::empty());
            },
        }
    } else {
        let rest = toks.drop_first();
        match toks[0] {
            Token::Word(w) => {
                if program is None {
                    lemma_done_kept_in_front(rest, done, Some(w@), args, redirects);
                    lemma_done_kept_in_front(rest, Seq::empty(), Some(w@), args, redirects);
                } else {
                    lemma_done_kept_in_front(rest, done, program, args.push(w@), redirects);
                    lemma_done_kept_in_front(rest, Seq::empty(), program, args.push(w@), redirects);
                }
            },
            Token::Redirect { fd, mode } => {
                if rest.len() > 0 {
                    match rest[0] {
                        Token::Word(t) => {
                            let r2 = redirects.push(RedirectSpec { fd: fd, mode: mode, target: t@ });
                            lemma_done_kept_in_front(rest.drop_first(), done, program, args, r2);
                            lemma_done_kept_in_front(
                                rest.drop_first(),
                                Seq::empty(),
                                program,
                                args,
                                r2,
                            );
                        },
                        _ => {
                            lemma_done_kept_in_front(rest, done, program, args, redirects);
                            lemma_done_kept_in_front(rest, Seq::empty(), program, args, redirects);
                        },
                    }
                } else {
                    lemma_done_kept_in_front(rest, done, program, args, redirects);
                    lemma_done_kept_in_front(rest, Seq::empty(), program, args, redirects);
                }
            },
            _ => {
                match program {
                    Some(p) => {
                        let c = CommandSpec {
                            program: p,
                            args: args,
                            redirects: redirects,
                            is_background: toks[0] is Ampersand,
                        };
                        lemma_done_kept_in_front(rest, done.push(c), None, Seq::empty(), Seq::empty());
                        lemma_done_kept_in_front(
                            rest,
                            Seq::<CommandSpec>::empty().push(c),
                            None,
                            Seq::empty(),
                            Seq::empty(),
                        );
                        lemma_done_kept_in_front(
                            rest,
                            Seq::empty(),
                            None,
                            Seq::empty(),
                            Seq::empty(),
                        );
                        let tail = parse_from(rest, Seq::empty(), None, Seq::empty(), Seq::empty());
                        assert(done.push(c) + tail =~= done + (Seq::<CommandSpec>::empty().push(c)
                            + tail));
                    },
                    None => {
                        lemma_done_kept_in_front(rest, done, program, args, redirects);
                        lemma_done_kept_in_front(rest, Seq::empty(), program, args, redirects);
                    },
                }
            },
        }
    }
}

/// Law: a command written as words is one command of the pipeline, with
/// the first word as its program and every other word, in order, as its
/// arguments; a `|` after it ends it in the foreground, an `&` in the
/// background; and what follows is parsed as a line of its own. Without
/// anything after the words, they make a foreground command on their own.
pub proof fn lemma_words_make_one_command(ws: Seq<String>, closer: Token, rest: Seq<Token>)
    requires
        ws.len() > 0,
        closer is Pipe || closer is Ampersand,
    ensures
        spec_parse(word_tokens(ws) + seq![closer] + rest) == seq![
            (CommandSpec {
                program: ws[0]@,
                args: string_views(ws).drop_first(),
                redirects: Seq::empty(),
                is_background: closer is Ampersand,
            }),
        ] + spec_parse(rest),
        spec_parse(word_tokens(ws)) == seq![
            (CommandSpec {
                program: ws[0]@,
                args: string_views(ws).drop_first(),
                redirects: Seq::empty(),
                is_background: false,
            }),
        ],
{
    let w0 = ws[0];
    let more = ws.drop_first();
    let args = string_views(ws).drop_first();
    assert(string_views(more) =~= args);
    assert(Seq::<Seq<char>>::empty() + string_views(more) =~= args);
    // With a closer and a rest.
    let toks = word_tokens(ws) + seq![closer] + rest;
    assert(toks[0] == Token::Word(w0));
    assert(toks.drop_first() =~= word_tokens(more) + (seq![closer] + rest));
    lemma_words_become_args(more, seq![closer] + rest, Seq::empty(), w0@, Seq::empty(), Seq::empty());
    let tail = seq![closer] + rest;
    assert(tail[0] == closer);
    assert(tail.drop_first() =~= rest);
    let c = CommandSpec {
        program: w0@,
        args: args,
        redirects: Seq::empty(),
        is_background: closer is Ampersand,
    };
    lemma_done_kept_in_front(rest, seq![c], None, Seq::empty(), Seq::empty());
    // Without anything after.
    let only = word_tokens(ws);
    assert(only[0] == Token::Word(w0));
    assert(only.drop_first() =~= word_tokens(more) + Seq::<Token>::empty());
    lemma_words_become_args(more, Seq::empty(), Seq::empty(), w0@, Seq::empty(), Seq::empty());
}

/// Law: a redirect followed by a word, anywhere after a command's program,
/// gives that command the redirection (its descriptor, its mode and the
/// word as target), and takes nothing from its arguments: the words before
/// and after it are all arguments, in order.
pub proof fn lemma_redirect_takes_next_word(
    ws: Seq<String>,
    fd: u32,
    mode: RedirectMode,
    target: String,
    more: Seq<String>,
)
    requires
        ws.len() > 0,
    ensures
        spec_parse(
            word_tokens(ws) + seq![Token::Redirect { fd: fd, mode: mode }, Token::Word(target)]
                + word_tokens(more),
        ) == seq![
            (CommandSpec {
                program: ws[0]@,
                args: string_views(ws).drop_first() + string_views(more),
                redirects: seq![(RedirectSpec { fd: fd, mode: mode, target: target@ })],
                is_background: false,
            }),
        ],
{
    let e: Seq<Seq<char>> = Seq::empty();
    let none: Seq<RedirectSpec> = Seq::empty();
    let w0 = ws[0];
    let rest_ws = ws.drop_first();
    let mid = seq![Token::Redirect { fd: fd, mode: mode }, Token::Word(target)] + word_tokens(more);
    let toks = word_tokens(ws) + seq![Token::Redirect { fd: fd, mode: mode }, Token::Word(target)]
        + word_tokens(more);
    assert(toks =~= word_tokens(ws) + mid);
    assert(toks[0] == Token::Word(w0));
    assert(toks.drop_first() =~= word_tokens(rest_ws) + mid);
    lemma_words_become_args(rest_ws, mid, Seq::empty(), w0@, e, none);
    let a1 = e + string_views(rest_ws);
    assert(a1 =~= string_views(ws).drop_first());
    assert(mid[0] == Token::Redirect { fd: fd, mode: mode });
    assert(mid.drop_first()[0] == Token::Word(target));
    assert(mid.drop_first().drop_first() =~= word_tokens(more) + Seq::<Token>::empty());
    let r1 = none.push(RedirectSpec { fd: fd, mode: mode, target: target@ });
    lemma_words_become_args(more, Seq::empty(), Seq::empty(), w0@, a1, r1);
    assert(r1 =~= seq![(RedirectSpec { fd: fd, mode: mode, target: target@ })]);
}

} // verus!
