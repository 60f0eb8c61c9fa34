//! Tokens: the lexical units of an expression.

use vstd::prelude::*;
use crate::decimal::{decimal_text, push_decimal};

verus! {

/// A lexical unit: a number literal or one of the two operators.
#[derive(Debug, Clone, Copy, PartialEq, Eq, Structural)]
pub enum Token {
    /// A number literal, with its value.
    Num(i32),
    /// The character `+`.
    Plus,
    /// The character `-`.
    Minus,
}

impl Token {
    /// The token is `Plus` or `Minus`.
    pub open spec fn is_operator(self) -> bool {
        self is Plus || self is Minus
    }

    /// The value of a number token.
    pub open spec fn value(self) -> int
        recommends
            self is Num,
    {
        self->0 as int
    }

    /// How the token is shown to a reader: its name, and for a number its
    /// value in decimal after a space.
    pub open spec fn text(self) -> Seq<char> {
        match self {
            Token::Num(v) => "Num "@ + decimal_text(v as int),
            Token::Plus => "Plus"@,
            Token::Minus => "Minus"@,
        }
    }

    /// The token as a reader sees it: `Num 12`, `Plus`, `Minus`.
    pub fn to_string(&self) -> (s: String)
        ensures
            s@ == self.text(),
    {
        match self {
            Token::Num(v) => {
                let mut s = String::from_str("Num ");
                push_decimal(&mut s, *v as i64);
                s
            },
            Token::Plus => String::from_str("Plus"),
            Token::Minus => String::from_str("Minus"),
        }
    }
}

} // verus!
