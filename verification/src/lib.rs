//! Front end of a small imperative expression language: lexing, parsing,
//! and two normalization passes (desugaring compound assignment, flattening
//! nested expressions into three-address form).

use vstd::prelude::*;

pub mod ast;
pub mod text;
pub mod compiler;
pub mod lexer;
pub mod parser;
pub mod semantics;
pub mod ir;

verus! {

/// A positioned, user-displayable failure from lexing or parsing.
/// `line` and `column` are zero-based; callers format them for display.
#[derive(Debug)]
pub struct CompilationError {
    pub message: String,
    pub line: usize,
    pub column: usize,
}

impl CompilationError {
    pub fn new(message: String, line: usize, column: usize) -> (r: Self)
        ensures
            r.message == message,
            r.line == line,
            r.column == column,
    {
        Self { message, line, column }
    }
}

} // verus!
