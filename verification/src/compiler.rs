//! The whole compiler: from the text of an expression to its assembly.
//!
//! The text is split into tokens and the tokens are turned into code. Either
//! step can fail, and then nothing is produced.

use vstd::prelude::*;
use crate::codegen::{assembly, format_error, output_asm, FormatError};
use crate::lexer::{lex, parse, LexError};

verus! {

/// Why a text is not compiled.
#[derive(Debug, Clone, Copy, PartialEq, Eq, Structural)]
pub enum CompileError {
    /// The text cannot be split into tokens.
    Lex(LexError),
    /// The tokens are not an expression.
    Format(FormatError),
}

/// The assembly for the text `s`, line by line, or the error that it is
/// rejected with.
pub open spec fn compiled(s: Seq<char>) -> Result<Seq<Seq<char>>, CompileError> {
    match lex(s) {
        Err(e) => Err(CompileError::Lex(e)),
        Ok(ts) => match format_error(ts) {
            Some(e) => Err(CompileError::Format(e)),
            None => Ok(assembly(ts)),
        },
    }
}

/// Compiles the text of an expression into assembly, line by line.
pub fn compile(program: &String) -> (result: Result<Vec<String>, CompileError>)
    ensures
        match result {
            Ok(lines) => compiled(program@) == Ok::<Seq<Seq<char>>, CompileError>(
                lines.deep_view(),
            ),
            Err(e) => compiled(program@) == Err::<Seq<Seq<char>>, CompileError>(e),
        },
{
    let tokens = match parse(program) {
        Ok(tokens) => tokens,
        Err(e) => {
            return Err(CompileError::Lex(e));
        },
    };
    match output_asm(tokens) {
        Ok(lines) => Ok(lines),
        Err(e) => Err(CompileError::Format(e)),
    }
}

} // verus!
