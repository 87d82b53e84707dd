use vstd::prelude::*;

use crate::context::RuntimeContext;
use crate::redirect::{opt_view, CmdOutput};
use crate::strmap::StringMap;
use crate::utils::{expand_tilde, tilde_expansion};
use crate::text::{join, join_seq, lex_sorted, push_str, sort_distinct, str_eq, str_views, string_views, lemma_str_views_push};

verus! {

/// The result of running a builtin command.
pub enum BuiltinResult {
    /// Normal output (may contain stdout and/or stderr text).
    Output(CmdOutput),
    /// Signals the shell to exit.
    Exit,
}

/// The builtin commands of the shell.
#[derive(Debug, Clone, Copy, PartialEq, Eq, Structural)]
pub enum Builtin {
    Exit,
    Echo,
    Type,
    Pwd,
    Cd,
    Complete,
    Jobs,
}

/// A registry of shell builtin commands, by name.
pub struct BuiltinRegistry {
    commands: StringMap<Builtin>,
}

impl View for BuiltinRegistry {
    type V = Map<Seq<char>, Builtin>;

    closed spec fn view(&self) -> Map<Seq<char>, Builtin> {
        self.commands@
    }
}

/// The builtins that every shell has, by name.
pub open spec fn default_builtins() -> Map<Seq<char>, Builtin> {
    Map::empty().insert(seq!['e', 'x', 'i', 't'], Builtin::Exit).insert(
        seq!['e', 'c', 'h', 'o'],
        Builtin::Echo,
    ).insert(seq!['t', 'y', 'p', 'e'], Builtin::Type).insert(seq!['p', 'w', 'd'], Builtin::Pwd).insert(
        seq!['c', 'd'],
        Builtin::Cd,
    ).insert(seq!['c', 'o', 'm', 'p', 'l', 'e', 't', 'e'], Builtin::Complete).insert(
        seq!['j', 'o', 'b', 's'],
        Builtin::Jobs,
    )
}

impl BuiltinRegistry {
    /// Create the registry with all default builtins.
    pub fn new() -> (reg: Self)
        ensures
            reg@ == default_builtins(),
    {
        let mut reg = Self { commands: StringMap::new() };
        reg.register("exit", Builtin::Exit);
        reg.register("echo", Builtin::Echo);
        reg.register("type", Builtin::Type);
        reg.register("pwd", Builtin::Pwd);
        reg.register("cd", Builtin::Cd);
        reg.register("complete", Builtin::Complete);
        reg.register("jobs", Builtin::Jobs);
        proof {
            reveal_strlit("exit");
            reveal_strlit("echo");
            reveal_strlit("type");
            reveal_strlit("pwd");
            reveal_strlit("cd");
            reveal_strlit("complete");
            reveal_strlit("jobs");
            assert("exit"@ =~= seq!['e', 'x', 'i', 't']);
            assert("echo"@ =~= seq!['e', 'c', 'h', 'o']);
            assert("type"@ =~= seq!['t', 'y', 'p', 'e']);
            assert("pwd"@ =~= seq!['p', 'w', 'd']);
            assert("cd"@ =~= seq!['c', 'd']);
            assert("complete"@ =~= seq!['c', 'o', 'm', 'p', 'l', 'e', 't', 'e']);
            assert("jobs"@ =~= seq!['j', 'o', 'b', 's']);
        }
        reg
    }

    /// Register a builtin command under `name`, replacing any other.
    pub fn register(&mut self, name: &str, func: Builtin)
        ensures
            final(self)@ == old(self)@.insert(name@, func),
    {
        self.commands.insert(name, func);
    }

    /// Look up a builtin by name.
    pub fn get(&self, name: &str) -> (r: Option<Builtin>)
        ensures
            r == (if self@.contains_key(name@) {
                Some(self@[name@])
            } else {
                None
            }),
    {
        match self.commands.get(name) {
            Some(b) => Some(*b),
            None => None,
        }
    }

    /// Check whether `name` is a registered builtin.
    pub fn is_builtin(&self, name: &str) -> (r: bool)
        ensures
            r == self@.contains_key(name@),
    {
        self.commands.contains_key(name)
    }

    /// Return the builtin names, sorted.
    pub fn names(&self) -> (names: Vec<&str>)
        ensures
            str_views(names@).to_set() == self@.dom(),
            lex_sorted(str_views(names@)),
    {
        let n = self.commands.len();
        let mut all: Vec<&str> = Vec::new();
        let mut i: usize = 0;
        let ghost order = self.commands.key_order();
        while i < n
            invariant
                i <= n,
                n == order.len(),
                order == self.commands.key_order(),
                str_views(all@) == order.take(i as int),
            decreases n - i,
        {
            let k = self.commands.key_at(i);
            let ks = k.as_str();
            assert(ks@ == order[i as int]);
            let ghost before = all@;
            all.push(ks);
            assert(all@ == before.push(ks));
            proof {
                lemma_str_views_push(before, ks);
                assert(order.take(i + 1) =~= order.take(i as int).push(order[i as int]));
            }
            i = i + 1;
        }
        assert(order.take(n as int) =~= order);
        sort_distinct(all)
    }
}

/// Law: a builtin registered under a name is what looking up that name
/// gives, and the name then counts as a builtin.
pub proof fn lemma_get_after_register(m: Map<Seq<char>, Builtin>, name: Seq<char>, func: Builtin)
    ensures
        m.insert(name, func).contains_key(name),
        m.insert(name, func)[name] == func,
{
}

// ---------------------------------------------------------------------------
// Builtin implementations
// ---------------------------------------------------------------------------

/// `exit`: ask the shell to stop.
pub fn builtin_exit(_args: &[String], _ctx: &RuntimeContext) -> (r: BuiltinResult)
    ensures
        r is Exit,
{
    BuiltinResult::Exit
}

/// The result is the output with `text` on stdout and nothing on stderr.
pub open spec fn prints(r: BuiltinResult, text: Seq<char>) -> bool {
    match r {
        BuiltinResult::Output(o) => opt_view(o.stdout) == Some(text) && o.stderr is None,
        BuiltinResult::Exit => false,
    }
}

/// The result is the output with `text` on stderr and nothing on stdout.
pub open spec fn reports(r: BuiltinResult, text: Seq<char>) -> bool {
    match r {
        BuiltinResult::Output(o) => o.stdout is None && opt_view(o.stderr) == Some(text),
        BuiltinResult::Exit => false,
    }
}

/// The result is an output with nothing on either stream.
pub open spec fn silent(r: BuiltinResult) -> bool {
    match r {
        BuiltinResult::Output(o) => o.stdout is None && o.stderr is None,
        BuiltinResult::Exit => false,
    }
}


/// `echo`: print the arguments separated by spaces.
pub fn builtin_echo(args: &[String], _ctx: &RuntimeContext) -> (r: BuiltinResult)
    ensures
        prints(r, join_seq(string_views(args@), seq![' '])),
{
    let text = join(args, " ");
    proof {
        reveal_strlit(" ");
        assert(" "@ =~= seq![' ']);
    }
    BuiltinResult::Output(CmdOutput::out(text))
}

/// Whether `name` is one of `names`.
fn contains_name(names: &Vec<String>, name: &str) -> (r: bool)
    ensures
        r == string_views(names@).contains(name@),
{
    let mut i: usize = 0;
    while i < names.len()
        invariant
            i <= names@.len(),
            forall|k: int| 0 <= k < i ==> names@[k]@ != name@,
        decreases names@.len() - i,
    {
        if str_eq(names[i].as_str(), name) {
            assert(string_views(names@)[i as int] == name@);
            return true;
        }
        i = i + 1;
    }
    assert(!string_views(names@).contains(name@)) by {
        if string_views(names@).contains(name@) {
            let k = choose|k: int| 0 <= k < string_views(names@).len() && string_views(names@)[k] == name@;
            assert(names@[k]@ == name@);
        }
    }
    false
}

/// What `type` prints for `name`: that it is a builtin, where it was found
/// on the search path, or that it was not found.
pub open spec fn type_message(
    builtin_names: Seq<Seq<char>>,
    name: Seq<char>,
    path: Option<Seq<char>>,
) -> Seq<char> {
    if builtin_names.contains(name) {
        name + seq![' ', 'i', 's', ' ', 'a', ' ', 's', 'h', 'e', 'l', 'l', ' ', 'b', 'u', 'i', 'l', 't', 'i', 'n']
    } else {
        match path {
            Some(p) => name + seq![' ', 'i', 's', ' '] + p,
            None => name + seq![':', ' ', 'n', 'o', 't', ' ', 'f', 'o', 'u', 'n', 'd'],
        }
    }
}

/// `type`: say whether the command named by the arguments (joined by
/// spaces) is a builtin, or where the executable `path_of` found for it on
/// the search path is.
pub fn builtin_type(args: &[String], ctx: &RuntimeContext, path_of: Option<String>) -> (r: BuiltinResult)
    ensures
        prints(
            r,
            type_message(
                string_views(ctx.builtin_names@),
                join_seq(string_views(args@), seq![' ']),
                opt_view(path_of),
            ),
        ),
{
    let name = join(args, " ");
    proof {
        reveal_strlit(" ");
        assert(" "@ =~= seq![' ']);
        reveal_strlit(" is a shell builtin");
        reveal_strlit(" is ");
        reveal_strlit(": not found");
        assert(" is a shell builtin"@ =~= seq![' ', 'i', 's', ' ', 'a', ' ', 's', 'h', 'e', 'l', 'l', ' ', 'b', 'u', 'i', 'l', 't', 'i', 'n']);
        assert(" is "@ =~= seq![' ', 'i', 's', ' ']);
        assert(": not found"@ =~= seq![':', ' ', 'n', 'o', 't', ' ', 'f', 'o', 'u', 'n', 'd']);
    }
    let mut text = name.clone();
    if contains_name(&ctx.builtin_names, name.as_str()) {
        push_str(&mut text, " is a shell builtin");
    } else {
        match path_of {
            Some(path) => {
                push_str(&mut text, " is ");
                push_str(&mut text, path.as_str());
            },
            None => {
                push_str(&mut text, ": not found");
            },
        }
    }
    BuiltinResult::Output(CmdOutput::out(text))
}


/// Whether `type` has to look the command named by `args` (joined by
/// spaces) up on the search path: only when it is not a builtin.
pub fn type_needs_path(args: &[String], ctx: &RuntimeContext) -> (r: bool)
    ensures
        r == !string_views(ctx.builtin_names@).contains(join_seq(string_views(args@), seq![' '])),
{
    let name = join(args, " ");
    proof {
        reveal_strlit(" ");
        assert(" "@ =~= seq![' ']);
    }
    !contains_name(&ctx.builtin_names, name.as_str())
}

/// The argument lists that `complete` accepts without failing: an option
/// first, and after `-p` or `-r` a name, after `-C` a program and a name.
pub open spec fn complete_args_ok(args: Seq<Seq<char>>) -> bool {
    &&& args.len() >= 1
    &&& args[0] == seq!['-', 'p'] ==> args.len() >= 2
    &&& args[0] == seq!['-', 'C'] ==> args.len() >= 3
    &&& args[0] == seq!['-', 'r'] ==> args.len() >= 2
}

/// Whether `complete` can run on `args` without failing.
pub fn complete_args_valid(args: &[String]) -> (r: bool)
    ensures
        r == complete_args_ok(string_views(args@)),
{
    proof {
        reveal_strlit("-p");
        reveal_strlit("-C");
        reveal_strlit("-r");
        assert("-p"@ =~= seq!['-', 'p']);
        assert("-C"@ =~= seq!['-', 'C']);
        assert("-r"@ =~= seq!['-', 'r']);
    }
    if args.len() == 0 {
        return false;
    }
    proof {
        assert(string_views(args@)[0] == args@[0]@);
    }
    let first = args[0].as_str();
    if str_eq(first, "-p") || str_eq(first, "-r") {
        args.len() >= 2
    } else if str_eq(first, "-C") {
        args.len() >= 3
    } else {
        true
    }
}

/// What `complete -p name` prints: the registered completion command on
/// stdout, or on stderr that there is none.
pub open spec fn completion_report(m: Map<Seq<char>, String>, name: Seq<char>) -> (Option<Seq<char>>, Option<Seq<char>>) {
    if m.contains_key(name) {
        (
            Some(seq!['c', 'o', 'm', 'p', 'l', 'e', 't', 'e', ' ', '-', 'C', ' ', '\''] + m[name]@
                + seq!['\'', ' '] + name),
            None,
        )
    } else {
        (
            None,
            Some(seq!['c', 'o', 'm', 'p', 'l', 'e', 't', 'e', ':', ' '] + name + seq![':', ' ', 'n', 'o', ' ', 'c', 'o', 'm', 'p', 'l', 'e', 't', 'i', 'o', 'n', ' ', 's', 'p', 'e', 'c', 'i', 'f', 'i', 'c', 'a', 't', 'i', 'o', 'n']),
        )
    }
}

/// The two streams of an output result.
pub open spec fn streams(r: BuiltinResult) -> (Option<Seq<char>>, Option<Seq<char>>) {
    match r {
        BuiltinResult::Output(o) => (opt_view(o.stdout), opt_view(o.stderr)),
        BuiltinResult::Exit => (None, None),
    }
}

/// `complete`: `-p name` prints the completion command registered for
/// `name`, `-C program name` registers `program` as the completion command
/// of `name`, `-r name` removes it; any other option does nothing.
pub fn builtin_complete(args: &[String], ctx: &mut RuntimeContext) -> (r: BuiltinResult)
    requires
        complete_args_ok(string_views(args@)),
    ensures
        final(ctx).builtin_names == old(ctx).builtin_names,
        final(ctx).jobs == old(ctx).jobs,
        r is Output,
        args@[0]@ == seq!['-', 'p'] ==> {
            &&& final(ctx).completion@ == old(ctx).completion@
            &&& streams(r) == completion_report(old(ctx).completion@, args@[1]@)
        },
        args@[0]@ == seq!['-', 'C'] ==> {
            &&& final(ctx).completion@ == old(ctx).completion@.insert(args@[2]@, args@[1])
            &&& silent(r)
        },
        args@[0]@ == seq!['-', 'r'] ==> {
            &&& final(ctx).completion@ == old(ctx).completion@.remove(args@[1]@)
            &&& silent(r)
        },
        args@[0]@ != seq!['-', 'p'] && args@[0]@ != seq!['-', 'C'] && args@[0]@ != seq!['-', 'r']
            ==> {
            &&& final(ctx).completion@ == old(ctx).completion@
            &&& silent(r)
        },
{
    proof {
        reveal_strlit("-p");
        reveal_strlit("-C");
        reveal_strlit("-r");
        assert("-p"@ =~= seq!['-', 'p']);
        assert("-C"@ =~= seq!['-', 'C']);
        assert("-r"@ =~= seq!['-', 'r']);
        assert(string_views(args@)[0] == args@[0]@);
    }
    if str_eq(args[0].as_str(), "-p") {
        proof {
            assert(string_views(args@)[1] == args@[1]@);
            reveal_strlit("complete -C '");
            reveal_strlit("' ");
            reveal_strlit("complete: ");
            reveal_strlit(": no completion specification");
            assert("complete -C '"@ =~= seq!['c', 'o', 'm', 'p', 'l', 'e', 't', 'e', ' ', '-', 'C', ' ', '\'']);
            assert("' "@ =~= seq!['\'', ' ']);
            assert("complete: "@ =~= seq!['c', 'o', 'm', 'p', 'l', 'e', 't', 'e', ':', ' ']);
            assert(": no completion specification"@ =~= seq![':', ' ', 'n', 'o', ' ', 'c', 'o', 'm', 'p', 'l', 'e', 't', 'i', 'o', 'n', ' ', 's', 'p', 'e', 'c', 'i', 'f', 'i', 'c', 'a', 't', 'i', 'o', 'n']);
        }
        let name = args[1].as_str();
        match ctx.completion.get(name) {
            Some(value) => {
                let mut text = String::new();
                push_str(&mut text, "complete -C '");
                push_str(&mut text, value.as_str());
                push_str(&mut text, "' ");
                push_str(&mut text, name);
                return BuiltinResult::Output(CmdOutput::out(text));
            },
            None => {
                let mut text = String::new();
                push_str(&mut text, "complete: ");
                push_str(&mut text, name);
                push_str(&mut text, ": no completion specification");
                return BuiltinResult::Output(CmdOutput::err(text));
            },
        }
    } else if str_eq(args[0].as_str(), "-C") {
        proof {
            assert(string_views(args@)[2] == args@[2]@);
        }
        ctx.completion.insert(args[2].as_str(), args[1].clone());
    } else if str_eq(args[0].as_str(), "-r") {
        proof {
            assert(string_views(args@)[1] == args@[1]@);
        }
        ctx.completion.remove(args[1].as_str());
    }
    BuiltinResult::Output(CmdOutput::empty())
}

/// Law: after `complete -C program name`, `complete -p name` prints that
/// `program` completes `name`; after `complete -r name`, it reports that
/// there is no completion for `name`.
pub proof fn lemma_complete_roundtrip(m: Map<Seq<char>, String>, name: Seq<char>, program: String)
    ensures
        completion_report(m.insert(name, program), name).0 == Some(
            seq!['c', 'o', 'm', 'p', 'l', 'e', 't', 'e', ' ', '-', 'C', ' ', '\''] + program@ + seq![
                '\'',
                ' ',
            ] + name,
        ),
        completion_report(m.insert(name, program), name).1 is None,
        completion_report(m.remove(name), name).0 is None,
        completion_report(m.remove(name), name).1 is Some,
{
}

/// The directory `cd` goes to, as written (the first argument, or `~`).
pub open spec fn cd_raw_path(args: Seq<Seq<char>>) -> Seq<char> {
    if args.len() > 0 {
        args[0]
    } else {
        seq!['~']
    }
}

/// `cd`, first step: the directory as written (the first argument, or `~`)
/// and with a leading `~` expanded to the home directory `home`.
pub fn cd_target(args: &[String], home: Option<&str>) -> (r: (String, String))
    ensures
        r.0@ == cd_raw_path(string_views(args@)),
        r.1@ == tilde_expansion(
            cd_raw_path(string_views(args@)),
            match home {
                Some(h) => Some(h@),
                None => None,
            },
        ),
{
    let raw = if args.len() > 0 {
        proof {
            assert(string_views(args@)[0] == args@[0]@);
        }
        args[0].clone()
    } else {
        proof {
            reveal_strlit("~");
            assert("~"@ =~= seq!['~']);
        }
        "~".to_string()
    };
    let expanded = expand_tilde(raw.as_str(), home);
    (raw, expanded)
}

/// `cd`, last step: nothing to say when the directory existed (and was
/// entered), an error naming the directory as written otherwise.
pub fn cd_outcome(raw_path: &str, exists: bool) -> (r: BuiltinResult)
    ensures
        exists ==> silent(r),
        !exists ==> reports(
            r,
            seq!['c', 'd', ':', ' '] + raw_path@ + seq![':', ' ', 'N', 'o', ' ', 's', 'u', 'c', 'h', ' ', 'f', 'i', 'l', 'e', ' ', 'o', 'r', ' ', 'd', 'i', 'r', 'e', 'c', 't', 'o', 'r', 'y'],
        ),
{
    if exists {
        BuiltinResult::Output(CmdOutput::empty())
    } else {
        proof {
            reveal_strlit("cd: ");
            reveal_strlit(": No such file or directory");
            assert("cd: "@ =~= seq!['c', 'd', ':', ' ']);
            assert(": No such file or directory"@ =~= seq![':', ' ', 'N', 'o', ' ', 's', 'u', 'c', 'h', ' ', 'f', 'i', 'l', 'e', ' ', 'o', 'r', ' ', 'd', 'i', 'r', 'e', 'c', 't', 'o', 'r', 'y']);
        }
        let mut text = String::new();
        push_str(&mut text, "cd: ");
        push_str(&mut text, raw_path);
        push_str(&mut text, ": No such file or directory");
        BuiltinResult::Output(CmdOutput::err(text))
    }
}

} // verus!
