//! Code generation: from a token sequence to the assembly that evaluates it.
//!
//! A well-formed sequence is a number followed by any count of pairs of an
//! operator and a number. The generated code loads the first number into the
//! accumulator and then adds one immediate per pair: the number itself after
//! `Plus`, the number negated after `Minus`. The negation is written as a
//! minus sign before the number as it stands, before a zero too. Evaluation
//! is strictly left to right. A token of the wrong kind anywhere in the
//! sequence is an error; nothing is emitted for a part of a sequence.

use vstd::prelude::*;
use crate::decimal::{decimal_text, push_decimal};
use crate::token::Token;

verus! {

/// Why a token sequence is not an expression.
#[derive(Debug, Clone, Copy, PartialEq, Eq, Structural)]
pub enum FormatError {
    /// The sequence is empty or begins with an operator.
    FirstTokenNotNumber,
    /// Further on, an operator is not followed by a number, or a number
    /// stands where an operator is due.
    NotWellFormed,
}

impl FormatError {
    /// The diagnostic for the error.
    pub open spec fn text(self) -> Seq<char> {
        match self {
            FormatError::FirstTokenNotNumber => "first token must be a number"@,
            FormatError::NotWellFormed => "not a well-formed formula"@,
        }
    }

    /// The diagnostic for the error.
    pub fn message(&self) -> (s: &'static str)
        ensures
            s@ == self.text(),
    {
        match self {
            FormatError::FirstTokenNotNumber => "first token must be a number",
            FormatError::NotWellFormed => "not a well-formed formula",
        }
    }
}

/// One instruction of the variable part of the generated code.
#[derive(Debug, Clone, Copy, PartialEq, Eq, Structural)]
pub enum Instr {
    /// Set the accumulator to the number.
    LoadImm(i32),
    /// Add the number to the accumulator, or the number negated where
    /// `negated` is set. The sign is kept apart from the number because the
    /// line of the instruction shows it so: a minus sign, then the number.
    AddImm { negated: bool, number: i32 },
}

impl Instr {
    /// The integer that the instruction loads into the accumulator or adds
    /// to it.
    pub open spec fn immediate(self) -> int {
        match self {
            Instr::LoadImm(number) => number as int,
            Instr::AddImm { negated, number } => if negated {
                -(number as int)
            } else {
                number as int
            },
        }
    }
}

/// The grammar of expressions: an odd count of tokens, numbers at the even
/// places and operators at the odd places.
pub open spec fn well_formed(ts: Seq<Token>) -> bool {
    &&& ts.len() % 2 == 1
    &&& forall|i: int|
        0 <= i < ts.len() ==> if i % 2 == 0 {
            (#[trigger] ts[i]) is Num
        } else {
            ts[i].is_operator()
        }
}

/// The error that a token sequence is rejected with, if it is rejected.
pub open spec fn format_error(ts: Seq<Token>) -> Option<FormatError> {
    if ts.len() == 0 || !(ts[0] is Num) {
        Some(FormatError::FirstTokenNotNumber)
    } else if !well_formed(ts) {
        Some(FormatError::NotWellFormed)
    } else {
        None
    }
}

/// The instructions for a well-formed token sequence: a load of the first
/// number, then one addition for each pair of an operator and a number,
/// negated where the operator is `Minus`.
pub open spec fn instructions(ts: Seq<Token>) -> Seq<Instr> {
    Seq::new(
        ((ts.len() + 1) / 2) as nat,
        |k: int|
            if k == 0 {
                Instr::LoadImm(ts[0]->0)
            } else {
                (Instr::AddImm { negated: ts[2 * k - 1] is Minus, number: ts[2 * k]->0 })
            },
    )
}

/// The value of a well-formed token sequence, evaluated from left to right.
pub open spec fn eval(ts: Seq<Token>) -> int
    decreases ts.len(),
{
    if ts.len() < 3 {
        ts[0].value()
    } else {
        let before = eval(ts.take(ts.len() - 2));
        if ts[ts.len() - 2] is Minus {
            before - ts.last().value()
        } else {
            before + ts.last().value()
        }
    }
}

/// The accumulator after a run of `code` from its first instruction to its
/// last, starting from zero.
pub open spec fn accumulator(code: Seq<Instr>) -> int
    decreases code.len(),
{
    if code.len() == 0 {
        0
    } else {
        match code.last() {
            Instr::LoadImm(_) => code.last().immediate(),
            Instr::AddImm { .. } => accumulator(code.drop_last()) + code.last().immediate(),
        }
    }
}

/// What stands before the number in the line of an addition: a minus sign
/// where the number is added negated, and nothing otherwise.
pub open spec fn sign_text(negated: bool) -> Seq<char> {
    if negated {
        seq!['-']
    } else {
        Seq::empty()
    }
}

/// The assembly line of an instruction. The number is written in decimal as
/// it stands; the line of a negated addition has a minus sign before it,
/// whatever the number is.
pub open spec fn instr_text(instr: Instr) -> Seq<char> {
    match instr {
        Instr::LoadImm(number) => "li    a5, "@ + decimal_text(number as int),
        Instr::AddImm { negated, number } => "addi   a5, a5, "@ + sign_text(negated)
            + decimal_text(number as int),
    }
}

/// The lines that open the generated function: its label, then the stack
/// frame of sixteen bytes, the saved frame pointer and the new frame base.
pub open spec fn prologue() -> Seq<Seq<char>> {
    seq!["main:"@, "addi  sp, sp, -16"@, "sw    s0, 12(sp)"@, "addi  s0, sp, 16"@]
}

/// The lines that close the generated function: the accumulator moved to the
/// return register, the frame pointer restored, the frame freed, the return.
pub open spec fn epilogue() -> Seq<Seq<char>> {
    seq!["mv    a0, a5"@, "lw    s0, 12(sp)"@, "addi  sp, sp, 16"@, "jr    ra"@]
}

/// The assembly for a well-formed token sequence, line by line.
pub open spec fn assembly(ts: Seq<Token>) -> Seq<Seq<char>> {
    prologue() + instructions(ts).map_values(|instr: Instr| instr_text(instr)) + epilogue()
}

/// Checks `tokens` against the grammar and gives the instructions for them.
pub fn generate(tokens: &Vec<Token>) -> (result: Result<Vec<Instr>, FormatError>)
    ensures
        match result {
            Ok(code) => format_error(tokens@) is None && code@ == instructions(tokens@),
            Err(e) => format_error(tokens@) == Some(e),
        },
{
    if tokens.len() == 0 {
        return Err(FormatError::FirstTokenNotNumber);
    }
    let mut code: Vec<Instr> = Vec::new();
    // The first number is due.
    match tokens[0] {
        Token::Num(v) => code.push(Instr::LoadImm(v)),
        _ => {
            return Err(FormatError::FirstTokenNotNumber);
        },
    }
    let ghost ts = tokens@;
    let mut i: usize = 1;
    while i < tokens.len()
        invariant
            ts == tokens@,
            1 <= i <= ts.len(),
            i % 2 == 1,
            ts[0] is Num,
            forall|j: int|
                0 <= j < i ==> if j % 2 == 0 {
                    (#[trigger] ts[j]) is Num
                } else {
                    ts[j].is_operator()
                },
            2 * code@.len() == i + 1,
            forall|k: int| 0 <= k < code@.len() ==> code@[k] == instructions(ts)[k],
        decreases ts.len() - i,
    {
        // An operator is due, or the end.
        let negated = match tokens[i] {
            Token::Plus => false,
            Token::Minus => true,
            Token::Num(_) => {
                return Err(FormatError::NotWellFormed);
            },
        };
        // After an operator a number is due.
        if i + 1 >= tokens.len() {
            return Err(FormatError::NotWellFormed);
        }
        match tokens[i + 1] {
            Token::Num(number) => {
                code.push(Instr::AddImm { negated, number });
            },
            _ => {
                return Err(FormatError::NotWellFormed);
            },
        }
        i += 2;
    }
    Ok(code)
}

/// Runs `code` from its first instruction to its last, starting from zero,
/// and gives the accumulator, which is wide enough never to wrap.
pub fn run(code: &Vec<Instr>) -> (acc: i128)
    ensures
        acc == accumulator(code@),
{
    let mut acc: i128 = 0;
    let mut i: usize = 0;
    while i < code.len()
        invariant
            i <= code@.len(),
            acc == accumulator(code@.take(i as int)),
            -0x8000_0000 * i <= acc <= 0x8000_0000 * i,
        decreases code@.len() - i,
    {
        proof {
            assert(code@.take(i + 1).drop_last() =~= code@.take(i as int));
        }
        match code[i] {
            Instr::LoadImm(number) => {
                acc = number as i128;
            },
            Instr::AddImm { negated, number } => {
                if negated {
                    acc = acc - number as i128;
                } else {
                    acc = acc + number as i128;
                }
            },
        }
        i += 1;
    }
    assert(code@.take(i as int) =~= code@);
    acc
}

/// The assembly line of `instr`.
pub fn render(instr: &Instr) -> (line: String)
    ensures
        line@ == instr_text(*instr),
{
    match instr {
        Instr::LoadImm(number) => {
            let mut line = String::from_str("li    a5, ");
            push_decimal(&mut line, *number as i64);
            line
        },
        Instr::AddImm { negated, number } => {
            let mut line = String::from_str("addi   a5, a5, ");
            if *negated {
                proof {
                    reveal_strlit("-");
                }
                line.append("-");
            }
            push_decimal(&mut line, *number as i64);
            line
        },
    }
}

/// Checks `tokens` against the grammar and gives the assembly for them, line
/// by line: the prologue, the load, the additions, the epilogue.
pub fn output_asm(tokens: Vec<Token>) -> (result: Result<Vec<String>, FormatError>)
    ensures
        match result {
            Ok(lines) => format_error(tokens@) is None && lines.deep_view() == assembly(tokens@),
            Err(e) => format_error(tokens@) == Some(e),
        },
{
    let code = match generate(&tokens) {
        Ok(code) => code,
        Err(e) => {
            return Err(e);
        },
    };
    let mut lines: Vec<String> = Vec::new();
    lines.push(String::from_str("main:"));
    lines.push(String::from_str("addi  sp, sp, -16"));
    lines.push(String::from_str("sw    s0, 12(sp)"));
    lines.push(String::from_str("addi  s0, sp, 16"));
    let ghost body = code@.map_values(|instr: Instr| instr_text(instr));
    let mut i: usize = 0;
    while i < code.len()
        invariant
            i <= code@.len(),
            body == code@.map_values(|instr: Instr| instr_text(instr)),
            lines.deep_view() == prologue() + body.take(i as int),
        decreases code@.len() - i,
    {
        let line = render(&code[i]);
        let ghost before = lines.deep_view();
        lines.push(line);
        assert(lines.deep_view() =~= before.push(line@));
        i += 1;
    }
    let ghost middle = lines.deep_view();
    lines.push(String::from_str("mv    a0, a5"));
    lines.push(String::from_str("lw    s0, 12(sp)"));
    lines.push(String::from_str("addi  sp, sp, 16"));
    lines.push(String::from_str("jr    ra"));
    assert(lines.deep_view() =~= middle + epilogue());
    Ok(lines)
}

} // verus!
