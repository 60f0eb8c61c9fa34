//! A compiler for sums and differences of decimal numbers.
//!
//! The text of an expression, such as `1-2+3`, is split into tokens by the
//! [`lexer`], and the tokens are turned into assembly for a small register
//! machine by [`codegen`]. [`compiler`] joins the two steps.

pub mod codegen;
pub mod compiler;
pub mod decimal;
pub mod lexer;
pub mod lexer_theorems;
pub mod theorems;
pub mod token;

pub use crate::codegen::{generate, output_asm, render, run, FormatError, Instr};
pub use crate::compiler::{compile, CompileError};
pub use crate::lexer::{parse, LexError, Lexer};
pub use crate::token::Token;
