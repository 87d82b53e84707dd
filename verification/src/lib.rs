use vstd::prelude::*;

pub mod builtins;
pub mod context;
pub mod executor;
pub mod jobs;
pub mod parser;
pub mod readline;
pub mod redirect;
pub mod strmap;
pub mod text;
pub mod tokenizer;
pub mod trie;
pub mod utils;

verus! {
} // verus!
