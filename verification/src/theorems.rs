//! What holds of the code generator, and of the lexer and the code generator
//! together.

use vstd::prelude::*;
use crate::codegen::{
    accumulator,
    assembly,
    epilogue,
    eval,
    instr_text,
    instructions,
    prologue,
    sign_text,
    well_formed,
};
use crate::compiler::compiled;
use crate::decimal::{decimal_digits, decimal_text};
use crate::lexer::lex;
use crate::lexer_theorems::{
    alternating,
    lemma_lex_accepts,
    lemma_lex_alternating,
    lemma_lex_expression_shape,
    literals_fit,
};
use crate::token::Token;

verus! {

/// A well-formed sequence of `2n + 1` tokens gives `n + 1` instructions: one
/// load, then only additions. Its assembly has a line for each of them
/// between the four lines of the prologue and the four of the epilogue.
pub proof fn lemma_instructions_shape(ts: Seq<Token>)
    requires
        well_formed(ts),
    ensures
        2 * instructions(ts).len() == ts.len() + 1,
        instructions(ts)[0] is LoadImm,
        forall|k: int| 1 <= k < instructions(ts).len() ==> (#[trigger] instructions(ts)[k]) is AddImm,
        assembly(ts).len() == instructions(ts).len() + 8,
        forall|k: int|
            0 <= k < instructions(ts).len() ==> #[trigger] assembly(ts)[4 + k] == instr_text(
                instructions(ts)[k],
            ),
{
}

/// The assembly of a well-formed sequence of `2n + 1` tokens, told from the
/// tokens: the prologue; the load of the first number; for each pair of an
/// operator and a number, in their order, an addition whose operand is the
/// number as it is written in decimal, after a minus sign where the operator
/// is `Minus` (before a zero too); the epilogue. That is `9 + n` lines. A
/// number that is not negative, as every number that the lexer gives, is
/// written as its digits alone.
pub proof fn lemma_assembly_lines(ts: Seq<Token>)
    requires
        well_formed(ts),
    ensures
        assembly(ts).len() == 9 + ts.len() / 2,
        assembly(ts).take(4) == prologue(),
        assembly(ts)[4] == "li    a5, "@ + decimal_text(ts[0].value()),
        forall|k: int|
            1 <= k <= ts.len() / 2 ==> #[trigger] assembly(ts)[4 + k] == "addi   a5, a5, "@
                + sign_text(ts[2 * k - 1] is Minus) + decimal_text(ts[2 * k].value()),
        forall|k: int|
            1 <= k <= ts.len() / 2 && ts[2 * k].value() >= 0 ==> #[trigger] assembly(ts)[4 + k]
                == "addi   a5, a5, "@ + sign_text(ts[2 * k - 1] is Minus) + decimal_digits(
                ts[2 * k].value() as nat,
            ),
        assembly(ts).skip(5 + ts.len() as int / 2) == epilogue(),
{
    assert(assembly(ts).take(4) =~= prologue());
    assert(assembly(ts).skip(5 + ts.len() as int / 2) =~= epilogue());
}

/// Running the generated instructions leaves in the accumulator the value of
/// the expression evaluated from left to right.
pub proof fn lemma_generated_code_evaluates(ts: Seq<Token>)
    requires
        well_formed(ts),
    ensures
        accumulator(instructions(ts)) == eval(ts),
    decreases ts.len(),
{
    if ts.len() >= 3 {
        // All but the last pair is well formed too, and its code is all but
        // the last instruction.
        let head = ts.take(ts.len() - 2);
        assert(well_formed(head));
        lemma_generated_code_evaluates(head);
        assert(instructions(ts).drop_last() =~= instructions(head));
    }
}

/// A text is compiled if and only if it has the shape of an expression and
/// none of its literals is above `i32::MAX`.
pub proof fn lemma_compile_accepts(s: Seq<char>)
    ensures
        compiled(s) is Ok <==> alternating(s) && literals_fit(s),
{
    lemma_lex_accepts(s);
    if alternating(s) && literals_fit(s) {
        lemma_lex_alternating(s);
    }
    if compiled(s) is Ok {
        lemma_lex_expression_shape(s);
    }
}

/// The code for a text that is compiled computes the value of its tokens,
/// taken from left to right.
pub proof fn lemma_compiled_code_evaluates(s: Seq<char>)
    requires
        compiled(s) is Ok,
    ensures
        lex(s) is Ok,
        well_formed(lex(s)->Ok_0),
        accumulator(instructions(lex(s)->Ok_0)) == eval(lex(s)->Ok_0),
{
    lemma_generated_code_evaluates(lex(s)->Ok_0);
}

} // verus!
