//! Regular-expression matching of condition values, through the `regex` crate.
use vstd::prelude::*;

mod compiled;

pub use compiled::{regex_compiles, regex_finds, CompiledPattern, ExRegex, ExRegexError};
use compiled::regex_new;

verus! {

/// Compiles `pattern` itself, unchanged; `None` when the regex syntax rejects it.
pub fn compile_pattern(pattern: &str) -> (r: Option<CompiledPattern>)
    ensures
        r is Some == regex_compiles(pattern@),
        r matches Some(c) ==> c@ == pattern@,
{
    match regex_new(pattern) {
        Ok(compiled) => Some(compiled),
        Err(_) => None,
    }
}

} // verus!
