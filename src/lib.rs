//! A small regular-expression engine: a compiler from a restricted regex
//! syntax to a pattern tree, and a backtracking matcher over that tree.
use vstd::prelude::*;

pub mod text;
pub mod pattern;
pub mod matcher;
pub mod compiler;
pub mod laws;

pub use crate::compiler::{compile, SyntaxError};
pub use crate::matcher::is_match;
pub use crate::pattern::Pattern;
use crate::compiler::parse;
use crate::matcher::matches_text;

verus! {

/// Whether the pattern text compiles and then matches the input line; a
/// pattern with a syntax error matches nothing.
pub fn match_pattern(input_line: &str, pattern: &str) -> (r: bool)
    ensures
        r == match parse(pattern@) {
            Ok(tree) => matches_text(tree, input_line@),
            Err(_) => false,
        },
{
    match compile(pattern) {
        Ok(tree) => is_match(&tree, input_line),
        Err(_) => false,
    }
}

} // verus!
