use vstd::prelude::*;

use crate::builtins::BuiltinRegistry;
use crate::jobs::JobContext;
use crate::strmap::StringMap;
use crate::text::{lemma_string_views_push, lex_sorted, str_views, string_views};

verus! {

/// Shared runtime context passed throughout the shell.
///
/// Contains the state that the builtins, the executor and the line editor
/// need: the builtin names, the completion commands registered with
/// `complete -C`, by command name, and the job table.
pub struct RuntimeContext {
    pub builtin_names: Vec<String>,
    pub completion: StringMap<String>,
    pub jobs: JobContext,
}

impl RuntimeContext {
    /// Build the runtime context from a [`BuiltinRegistry`].
    pub fn new(registry: &BuiltinRegistry) -> (ctx: Self)
        ensures
            string_views(ctx.builtin_names@).to_set() == registry@.dom(),
            lex_sorted(string_views(ctx.builtin_names@)),
            ctx.completion@ == Map::<Seq<char>, String>::empty(),
            ctx.jobs.job_table@ == Map::<u32, crate::jobs::Job>::empty(),
            ctx.jobs.recent_job_id == 0,
    {
        let names = registry.names();
        let mut owned: Vec<String> = Vec::new();
        let mut i: usize = 0;
        while i < names.len()
            invariant
                i <= names@.len(),
                string_views(owned@) == str_views(names@).take(i as int),
            decreases names@.len() - i,
        {
            let ghost before = owned@;
            let o = str::to_owned(names[i]);
            owned.push(o);
            proof {
                lemma_string_views_push(before, o);
                assert(str_views(names@).take(i + 1) =~= str_views(names@).take(i as int).push(
                    names@[i as int]@,
                ));
            }
            i = i + 1;
        }
        assert(str_views(names@).take(names@.len() as int) =~= str_views(names@));
        Self { builtin_names: owned, completion: StringMap::new(), jobs: JobContext::new() }
    }
}

} // verus!
