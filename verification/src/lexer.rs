//! Lexical analysis: from the characters of an expression to its tokens.
//!
//! The text is read from left to right. `+` and `-` are one token each; a
//! digit begins a number literal, which runs on through every digit that
//! follows. Any other character is an error, white space too. A literal whose
//! value is above `i32::MAX` is rejected as well: values are never wrapped
//! nor clipped.

use vstd::prelude::*;
use crate::decimal::{
    decimal_value,
    is_ascii_digit,
    is_digit,
    lemma_decimal_value_prefix,
    lemma_decimal_value_push,
    to_digit,
};
use crate::token::Token;

verus! {

/// Why a text cannot be split into tokens.
#[derive(Debug, Clone, Copy, PartialEq, Eq, Structural)]
pub enum LexError {
    /// The character `found`, at index `pos`, is no digit and no operator.
    UnexpectedChar { pos: usize, found: char },
    /// The number literal that begins at index `pos` is above `i32::MAX`.
    NumberTooLarge { pos: usize },
}

impl LexError {
    /// The index of the character at which the text was given up.
    pub open spec fn position(self) -> usize {
        match self {
            LexError::UnexpectedChar { pos, .. } => pos,
            LexError::NumberTooLarge { pos } => pos,
        }
    }
}

/// `c` is `+` or `-`.
pub open spec fn is_operator_char(c: char) -> bool {
    c == '+' || c == '-'
}

/// `c` is a character that a token can hold: a digit, `+` or `-`.
pub open spec fn is_token_char(c: char) -> bool {
    is_digit(c) || is_operator_char(c)
}

/// The count of digits in `s` from index `i` up to the first character that
/// is not a digit, or to the end.
pub open spec fn digit_run(s: Seq<char>, i: int) -> nat
    decreases s.len() - i,
{
    if 0 <= i < s.len() && is_digit(s[i]) {
        1 + digit_run(s, i + 1)
    } else {
        0
    }
}

/// A run of digits ends within the text, and is not empty where it begins
/// at a digit.
pub proof fn lemma_digit_run_bound(s: Seq<char>, i: int)
    requires
        0 <= i <= s.len(),
    ensures
        i + digit_run(s, i) <= s.len(),
        i < s.len() && is_digit(s[i]) ==> digit_run(s, i) >= 1,
    decreases s.len() - i,
{
    if i < s.len() && is_digit(s[i]) {
        lemma_digit_run_bound(s, i + 1);
    }
}

/// The value of the number literal that begins at index `i`: of the digits
/// from `i` up to the first character that is not a digit, or to the end.
pub open spec fn literal_value(s: Seq<char>, i: int) -> int {
    decimal_value(s.subrange(i, i + digit_run(s, i)))
}

/// A result with `front` put in front of its tokens; an error stays as it is.
pub open spec fn extend(front: Seq<Token>, rest: Result<Seq<Token>, LexError>) -> Result<
    Seq<Token>,
    LexError,
> {
    match rest {
        Ok(ts) => Ok(front + ts),
        Err(e) => Err(e),
    }
}

/// What a tokenizer returns, with the vector of tokens taken as a sequence.
pub open spec fn tokens_view(result: Result<Vec<Token>, LexError>) -> Result<
    Seq<Token>,
    LexError,
> {
    match result {
        Ok(tokens) => Ok(tokens@),
        Err(e) => Err(e),
    }
}

/// The tokens of `s` from index `i` on, or the first error met on the way.
pub open spec fn lex_from(s: Seq<char>, i: int) -> Result<Seq<Token>, LexError>
    decreases s.len() - i,
{
    if i < 0 || i >= s.len() {
        Ok(Seq::empty())
    } else if s[i] == '+' {
        extend(seq![Token::Plus], lex_from(s, i + 1))
    } else if s[i] == '-' {
        extend(seq![Token::Minus], lex_from(s, i + 1))
    } else if is_digit(s[i]) {
        if literal_value(s, i) > i32::MAX {
            Err(LexError::NumberTooLarge { pos: i as usize })
        } else {
            proof {
                lemma_digit_run_bound(s, i);
            }
            extend(
                seq![Token::Num(literal_value(s, i) as i32)],
                lex_from(s, i + digit_run(s, i)),
            )
        }
    } else {
        Err(LexError::UnexpectedChar { pos: i as usize, found: s[i] })
    }
}

/// The tokens of the whole of `s`, or the first error met on the way.
pub open spec fn lex(s: Seq<char>) -> Result<Seq<Token>, LexError> {
    lex_from(s, 0)
}

/// Every character of a run of digits is a digit, and the run is as long as
/// it can be: the character after it, if there is one, is no digit.
pub proof fn lemma_digit_run_digits(s: Seq<char>, i: int)
    requires
        0 <= i <= s.len(),
    ensures
        forall|k: int| i <= k < i + digit_run(s, i) ==> is_digit(#[trigger] s[k]),
        i + digit_run(s, i) < s.len() ==> !is_digit(s[i + digit_run(s, i)]),
    decreases s.len() - i,
{
    if i < s.len() && is_digit(s[i]) {
        lemma_digit_run_digits(s, i + 1);
    }
}

/// A run of digits that begins at `i` and has digits up to `j` goes on as the
/// run that begins at `j`.
pub proof fn lemma_digit_run_split(s: Seq<char>, i: int, j: int)
    requires
        0 <= i <= j <= s.len(),
        forall|k: int| i <= k < j ==> is_digit(#[trigger] s[k]),
    ensures
        digit_run(s, i) == (j - i) + digit_run(s, j),
    decreases j - i,
{
    if i < j {
        lemma_digit_run_split(s, i + 1, j);
    }
}

/// The text and the cursor of a tokenizer in progress.
pub struct Lexer {
    program: Vec<char>,
    pos: usize,
}

impl Lexer {
    /// The characters that the lexer reads.
    pub closed spec fn text(&self) -> Seq<char> {
        self.program@
    }

    /// The index of the character that is read next. At or beyond the length
    /// of the text, nothing is left to read.
    pub closed spec fn cursor(&self) -> int {
        self.pos as int
    }

    /// The text is held in memory, so its length is within `usize`.
    pub proof fn lemma_text_len(&self)
        ensures
            self.text().len() <= usize::MAX,
    {
        assert(self.program.len() == self.program@.len());
    }

    /// A lexer at the beginning of `program`.
    pub fn new(program: &String) -> (lexer: Lexer)
        ensures
            lexer.text() == program@,
            lexer.cursor() == 0,
    {
        let mut chars: Vec<char> = Vec::new();
        let text = program.as_str();
        for c in it: text.chars()
            invariant
                chars@ == it.seq().take(it.index()),
        {
            chars.push(c);
        }
        Lexer { program: chars, pos: 0 }
    }

    /// Splits the text from the cursor on into tokens.
    ///
    /// On success the cursor ends behind the last character. On failure no
    /// token is returned and the cursor ends at the index that the error
    /// names. Either way the result depends on the text and on where the
    /// cursor began, and on nothing else.
    pub fn tokenize(&mut self) -> (result: Result<Vec<Token>, LexError>)
        ensures
            final(self).text() == old(self).text(),
            tokens_view(result) == lex_from(old(self).text(), old(self).cursor()),
            match result {
                Ok(_) => final(self).cursor() == if old(self).cursor() < old(self).text().len() {
                    old(self).text().len() as int
                } else {
                    old(self).cursor()
                },
                Err(e) => final(self).cursor() == e.position(),
            },
    {
        let ghost s = self.text();
        let ghost start = self.cursor();
        let mut tokens: Vec<Token> = Vec::new();
        proof {
            self.lemma_text_len();
        }
        loop
            invariant
                s == old(self).text(),
                start == old(self).cursor(),
                s.len() <= usize::MAX,
                self.text() == s,
                start <= self.cursor(),
                self.cursor() <= s.len() || self.cursor() == start,
                lex_from(s, start) == extend(tokens@, lex_from(s, self.cursor())),
            ensures
                self.cursor() >= s.len(),
            decreases s.len() - self.cursor(),
        {
            let c = match self.cur() {
                Some(c) => c,
                None => {
                    break ;
                },
            };
            let ghost at = self.cursor();
            let ghost before = tokens@;
            if c == '+' {
                tokens.push(Token::Plus);
            } else if c == '-' {
                tokens.push(Token::Minus);
            } else if is_ascii_digit(c) {
                let begin = self.pos;
                let mut value: i64 = to_digit(c).unwrap() as i64;
                proof {
                    lemma_decimal_value_push(Seq::empty(), c);
                    assert(s.subrange(at, at + 1) =~= Seq::<char>::empty().push(c));
                }
                loop
                    invariant
                        s == old(self).text(),
                        start == old(self).cursor(),
                        s.len() <= usize::MAX,
                        self.text() == s,
                        lex_from(s, start) == extend(tokens@, lex_from(s, at)),
                        begin == at,
                        at <= self.cursor() < s.len(),
                        forall|k: int| at <= k <= self.cursor() ==> is_digit(#[trigger] s[k]),
                        value == decimal_value(s.subrange(at, self.cursor() + 1)),
                        0 <= value <= i32::MAX,
                    ensures
                        self.cursor() + 1 == at + digit_run(s, at),
                    decreases s.len() - self.cursor(),
                {
                    proof {
                        lemma_digit_run_split(s, at, self.cursor() + 1);
                    }
                    let d = match self.next() {
                        Some(d) => d,
                        None => {
                            break ;
                        },
                    };
                    if !is_ascii_digit(d) {
                        break ;
                    }
                    proof {
                        lemma_decimal_value_push(s.subrange(at, self.cursor() + 1), d);
                        assert(s.subrange(at, self.cursor() + 2) =~= s.subrange(
                            at,
                            self.cursor() + 1,
                        ).push(d));
                    }
                    self.incr();
                    value = value * 10 + to_digit(d).unwrap() as i64;
                    if value > i32::MAX as i64 {
                        proof {
                            lemma_digit_run_split(s, at, self.cursor() + 1);
                            lemma_digit_run_bound(s, at);
                            lemma_digit_run_digits(s, at);
                            let end = at + digit_run(s, at);
                            let literal = s.subrange(at, end);
                            let seen = self.cursor() + 1 - at;
                            lemma_decimal_value_prefix(literal, seen);
                            assert(literal.take(seen) =~= s.subrange(at, self.cursor() + 1));
                        }
                        self.pos = begin;
                        return Err(LexError::NumberTooLarge { pos: begin });
                    }
                }
                tokens.push(Token::Num(value as i32));
            } else {
                return Err(LexError::UnexpectedChar { pos: self.pos, found: c });
            }
            self.incr();
            proof {
                // The token just read, then the tokens of the rest of the
                // text, are the tokens of what was left to read.
                let t = tokens@.last();
                let rest = lex_from(s, self.cursor());
                assert(lex_from(s, at) == extend(seq![t], rest));
                if rest is Ok {
                    assert(before + (seq![t] + rest->Ok_0) =~= tokens@ + rest->Ok_0);
                }
            }
        }
        Ok(tokens)
    }

    /// Moves the cursor one character on.
    pub fn incr(&mut self)
        requires
            old(self).cursor() < usize::MAX,
        ensures
            final(self).text() == old(self).text(),
            final(self).cursor() == old(self).cursor() + 1,
    {
        self.pos += 1;
    }

    /// The character after the one at the cursor, if there is one.
    pub fn next(&self) -> (c: Option<char>)
        ensures
            c == if self.cursor() + 1 < self.text().len() {
                Some(self.text()[self.cursor() + 1])
            } else {
                None
            },
    {
        if self.program.len() <= self.pos || self.program.len() - 1 <= self.pos {
            None
        } else {
            Some(self.program[self.pos + 1])
        }
    }

    /// The character at the cursor, if there is one.
    pub fn cur(&self) -> (c: Option<char>)
        ensures
            c == if self.cursor() < self.text().len() {
                Some(self.text()[self.cursor()])
            } else {
                None
            },
    {
        if self.program.len() <= self.pos {
            None
        } else {
            Some(self.program[self.pos])
        }
    }
}

/// Splits `program` into tokens.
///
/// The result is a function of the characters of `program` alone: the same
/// text gives the same tokens, or the same error, every time.
pub fn parse(program: &String) -> (result: Result<Vec<Token>, LexError>)
    ensures
        tokens_view(result) == lex(program@),
{
    let mut lexer = Lexer::new(program);
    let tokens = lexer.tokenize();
    tokens
}

} // verus!
