//! What holds of the lexer: which texts it accepts, which tokens it gives and
//! which error it reports.

use vstd::prelude::*;
use crate::codegen::well_formed;
use crate::decimal::{
    all_digits,
    decimal_digits,
    decimal_text,
    decimal_value,
    is_digit,
    lemma_decimal_digits_shape,
    lemma_decimal_round_trip,
    lemma_decimal_value_prefix,
};
use crate::lexer::{
    digit_run,
    extend,
    is_operator_char,
    is_token_char,
    lemma_digit_run_bound,
    lemma_digit_run_digits,
    lemma_digit_run_split,
    lex,
    lex_from,
    literal_value,
    tokens_view,
    LexError,
};
use crate::token::Token;

verus! {

/// A number literal begins at index `i`: a digit stands there, and no digit
/// stands before it.
pub open spec fn literal_start(s: Seq<char>, i: int) -> bool {
    0 <= i < s.len() && is_digit(s[i]) && (i == 0 || !is_digit(s[i - 1]))
}

/// Every character of the text is a digit or an operator.
pub open spec fn all_token_chars(s: Seq<char>) -> bool {
    forall|i: int| 0 <= i < s.len() ==> is_token_char(#[trigger] s[i])
}

/// No number literal of the text is above `i32::MAX`.
pub open spec fn literals_fit(s: Seq<char>) -> bool {
    forall|i: int| #[trigger] literal_start(s, i) ==> literal_value(s, i) <= i32::MAX
}

/// Nothing is wrong with the text at index `i`: the character there is a
/// digit or an operator, and a literal that begins there is at most
/// `i32::MAX`.
pub open spec fn sound_at(s: Seq<char>, i: int) -> bool {
    is_token_char(s[i]) && (literal_start(s, i) ==> literal_value(s, i) <= i32::MAX)
}

/// The text has the shape of an expression: number literals with one
/// operator between each two of them, and nothing else.
pub open spec fn alternating(s: Seq<char>) -> bool {
    &&& s.len() > 0
    &&& is_digit(s[0])
    &&& is_digit(s.last())
    &&& all_token_chars(s)
    &&& forall|i: int|
        0 <= i < s.len() - 1 && is_operator_char(#[trigger] s[i]) ==> is_digit(s[i + 1])
}

/// The count of operator characters in `s` at index `i` and after it.
pub open spec fn operator_count(s: Seq<char>, i: int) -> nat
    decreases s.len() - i,
{
    if i < 0 || i >= s.len() {
        0
    } else if is_operator_char(s[i]) {
        1 + operator_count(s, i + 1)
    } else {
        operator_count(s, i + 1)
    }
}

/// No operator is counted within a stretch of digits.
proof fn lemma_operator_count_skips_digits(s: Seq<char>, i: int, j: int)
    requires
        0 <= i <= j <= s.len(),
        forall|k: int| i <= k < j ==> is_digit(#[trigger] s[k]),
    ensures
        operator_count(s, i) == operator_count(s, j),
    decreases j - i,
{
    if i < j {
        lemma_operator_count_skips_digits(s, i + 1, j);
    }
}

/// A text made of digits alone is one number token, whose value is the value
/// of the text as a decimal numeral, as long as that is at most `i32::MAX`.
pub proof fn lemma_lex_digits(s: Seq<char>)
    requires
        s.len() > 0,
        all_digits(s),
        decimal_value(s) <= i32::MAX,
    ensures
        lex(s) == Ok::<Seq<Token>, LexError>(seq![Token::Num(decimal_value(s) as i32)]),
{
    lemma_digit_run_split(s, 0, s.len() as int);
    assert(s.subrange(0, s.len() as int) =~= s);
    assert(lex_from(s, s.len() as int) == Ok::<Seq<Token>, LexError>(Seq::empty()));
    assert(seq![Token::Num(decimal_value(s) as i32)] + Seq::<Token>::empty() =~= seq![
        Token::Num(decimal_value(s) as i32),
    ]);
}

/// A text made of digits alone whose value as a decimal numeral is above
/// `i32::MAX` is rejected at its first character.
pub proof fn lemma_lex_digits_too_large(s: Seq<char>)
    requires
        s.len() > 0,
        all_digits(s),
        decimal_value(s) > i32::MAX,
    ensures
        lex(s) == Err::<Seq<Token>, LexError>(LexError::NumberTooLarge { pos: 0 }),
{
    lemma_digit_run_split(s, 0, s.len() as int);
    assert(s.subrange(0, s.len() as int) =~= s);
}

/// The numeral written for a number that is at most `i32::MAX` is read back
/// as one token with that number.
pub proof fn lemma_lex_reads_written_number(n: nat)
    requires
        n <= i32::MAX,
    ensures
        lex(decimal_digits(n)) == Ok::<Seq<Token>, LexError>(seq![Token::Num(n as i32)]),
{
    lemma_decimal_digits_shape(n);
    lemma_decimal_round_trip(n);
    lemma_lex_digits(decimal_digits(n));
}

/// The digits that begin at index `i` of `a` are the digits that begin there
/// in `a + b`, where no digit at the end of `a` meets a digit at the beginning
/// of `b`.
proof fn lemma_digit_run_before_join(a: Seq<char>, b: Seq<char>, i: int)
    requires
        0 <= i < a.len(),
        b.len() == 0 || !is_digit(a.last()) || !is_digit(b[0]),
    ensures
        digit_run(a + b, i) == digit_run(a, i),
    decreases a.len() - i,
{
    let s = a + b;
    assert(s[i] == a[i]);
    if is_digit(a[i]) {
        if i + 1 < a.len() {
            lemma_digit_run_before_join(a, b, i + 1);
        } else {
            // The last digit of `a`: the run ends with it in both texts.
            if b.len() > 0 {
                assert(s[i + 1] == b[0]);
            }
            assert(digit_run(a, i + 1) == 0);
            assert(digit_run(s, i + 1) == 0);
        }
    }
}

/// The digits that begin at index `j` of `b` are the digits that begin in
/// `a + b` at the same character.
proof fn lemma_digit_run_after_join(a: Seq<char>, b: Seq<char>, j: int)
    requires
        0 <= j <= b.len(),
    ensures
        digit_run(a + b, a.len() + j) == digit_run(b, j),
    decreases b.len() - j,
{
    if j < b.len() {
        assert((a + b)[a.len() + j] == b[j]);
        if is_digit(b[j]) {
            lemma_digit_run_after_join(a, b, j + 1);
        }
    }
}

/// The tokens of `b` from index `j` on are the tokens of `a + b` from the
/// same character on.
proof fn lemma_lex_after_join(a: Seq<char>, b: Seq<char>, j: int)
    requires
        0 <= j <= b.len(),
        lex_from(b, j) is Ok,
    ensures
        lex_from(a + b, a.len() + j) == lex_from(b, j),
    decreases b.len() - j,
{
    let s = a + b;
    if j < b.len() {
        assert(s[a.len() + j] == b[j]);
        if is_digit(b[j]) {
            let n = digit_run(b, j);
            lemma_digit_run_after_join(a, b, j);
            lemma_digit_run_bound(b, j);
            assert(s.subrange(a.len() + j, a.len() + j + n) =~= b.subrange(j, j + n));
            lemma_lex_after_join(a, b, j + n);
        } else {
            lemma_lex_after_join(a, b, j + 1);
        }
    }
}

/// The tokens of `a + b` from index `i` of `a` on are the tokens of `a` from
/// there on, then the tokens of `b`, where no digit at the end of `a` meets a
/// digit at the beginning of `b`.
proof fn lemma_lex_before_join(a: Seq<char>, b: Seq<char>, i: int)
    requires
        0 <= i <= a.len(),
        lex_from(a, i) is Ok,
        lex(b) is Ok,
        a.len() == 0 || b.len() == 0 || !is_digit(a.last()) || !is_digit(b[0]),
    ensures
        lex_from(a + b, i) == Ok::<Seq<Token>, LexError>(lex_from(a, i)->Ok_0 + lex(b)->Ok_0),
    decreases a.len() - i,
{
    let s = a + b;
    let tail = lex(b)->Ok_0;
    if i == a.len() {
        lemma_lex_after_join(a, b, 0);
        assert(Seq::<Token>::empty() + tail =~= tail);
    } else {
        assert(s[i] == a[i]);
        let next = if is_digit(a[i]) {
            i + digit_run(a, i)
        } else {
            i + 1
        };
        if is_digit(a[i]) {
            lemma_digit_run_before_join(a, b, i);
            lemma_digit_run_bound(a, i);
            assert(s.subrange(i, next) =~= a.subrange(i, next));
        }
        lemma_lex_before_join(a, b, next);
        let first = lex_from(a, i)->Ok_0[0];
        let rest = lex_from(a, next)->Ok_0;
        assert(lex_from(a, i)->Ok_0 == seq![first] + rest);
        assert(lex_from(s, i) == extend(seq![first], lex_from(s, next)));
        assert(seq![first] + (rest + tail) =~= (seq![first] + rest) + tail);
    }
}

/// The tokens of two texts put together are the tokens of the first, then
/// the tokens of the second, unless a digit at the end of the first meets a
/// digit at the beginning of the second and the two literals become one.
pub proof fn lemma_lex_joined(a: Seq<char>, b: Seq<char>)
    requires
        lex(a) is Ok,
        lex(b) is Ok,
        a.len() == 0 || b.len() == 0 || !is_digit(a.last()) || !is_digit(b[0]),
    ensures
        lex(a + b) == Ok::<Seq<Token>, LexError>(lex(a)->Ok_0 + lex(b)->Ok_0),
{
    lemma_lex_before_join(a, b, 0);
}

/// The token of an operator character.
pub open spec fn operator_token(c: char) -> Token {
    if c == '-' {
        Token::Minus
    } else {
        Token::Plus
    }
}

/// A text of one operator character is the one token of that operator.
proof fn lemma_lex_operator(c: char)
    requires
        is_operator_char(c),
    ensures
        lex(seq![c]) == Ok::<Seq<Token>, LexError>(seq![operator_token(c)]),
{
    let s = seq![c];
    assert(lex_from(s, 1) == Ok::<Seq<Token>, LexError>(Seq::empty()));
    assert(seq![operator_token(c)] + Seq::<Token>::empty() =~= seq![operator_token(c)]);
}

/// `d` can stand as a number literal: it is made of digits, at least one, and
/// its value is at most `i32::MAX`.
pub open spec fn is_literal(d: Seq<char>) -> bool {
    d.len() > 0 && all_digits(d) && decimal_value(d) <= i32::MAX
}

/// The text of the literals `numbers` with the operator characters `ops`
/// between them, one between each two: the first literal, the first
/// operator, the second literal, and so on to the last literal.
pub open spec fn expression_text(numbers: Seq<Seq<char>>, ops: Seq<char>) -> Seq<char>
    decreases ops.len(),
{
    if ops.len() == 0 {
        numbers[0]
    } else {
        expression_text(numbers.drop_last(), ops.drop_last()) + seq![ops.last()] + numbers.last()
    }
}

/// The tokens of the literals `numbers` with the operator characters `ops`
/// between them: at the even places the numbers with the values of the
/// literals, at the odd places the operators.
pub open spec fn expression_tokens(numbers: Seq<Seq<char>>, ops: Seq<char>) -> Seq<Token> {
    Seq::new(
        2 * ops.len() + 1,
        |k: int|
            if k % 2 == 0 {
                Token::Num(decimal_value(numbers[k / 2]) as i32)
            } else {
                operator_token(ops[k / 2])
            },
    )
}

/// A text made of `n + 1` literals with `n` operators between them gives
/// `2n + 1` tokens, numbers and operators in turn: each number has the value
/// of its literal, and each operator is the one of its character.
pub proof fn lemma_lex_expression(numbers: Seq<Seq<char>>, ops: Seq<char>)
    requires
        numbers.len() == ops.len() + 1,
        forall|k: int| 0 <= k < numbers.len() ==> is_literal(#[trigger] numbers[k]),
        forall|k: int| 0 <= k < ops.len() ==> is_operator_char(#[trigger] ops[k]),
    ensures
        lex(expression_text(numbers, ops)) == Ok::<Seq<Token>, LexError>(
            expression_tokens(numbers, ops),
        ),
        expression_tokens(numbers, ops).len() == 2 * ops.len() + 1,
        well_formed(expression_tokens(numbers, ops)),
    decreases ops.len(),
{
    let tokens = expression_tokens(numbers, ops);
    if ops.len() == 0 {
        assert(is_literal(numbers[0]));
        lemma_lex_digits(numbers[0]);
        assert(tokens =~= seq![Token::Num(decimal_value(numbers[0]) as i32)]);
    } else {
        let head = expression_text(numbers.drop_last(), ops.drop_last());
        let head_tokens = expression_tokens(numbers.drop_last(), ops.drop_last());
        let op = ops.last();
        let d = numbers.last();
        lemma_lex_expression(numbers.drop_last(), ops.drop_last());
        // The last operator with the last literal is two tokens.
        assert(is_operator_char(op));
        assert(is_literal(d));
        lemma_lex_operator(op);
        lemma_lex_digits(d);
        lemma_lex_joined(seq![op], d);
        // They follow the tokens of what stands before them.
        lemma_lex_joined(head, seq![op] + d);
        assert(expression_text(numbers, ops) =~= head + (seq![op] + d));
        assert(tokens =~= head_tokens + (seq![operator_token(op)] + seq![
            Token::Num(decimal_value(d) as i32),
        ]));
    }
}

/// How a token is written in a text: a number in decimal, an operator as its
/// character.
pub open spec fn written_token(t: Token) -> Seq<char> {
    match t {
        Token::Num(v) => decimal_text(v as int),
        Token::Plus => seq!['+'],
        Token::Minus => seq!['-'],
    }
}

/// The tokens written one after the other, with nothing between them.
pub open spec fn written_tokens(ts: Seq<Token>) -> Seq<char>
    decreases ts.len(),
{
    if ts.len() == 0 {
        Seq::empty()
    } else {
        written_tokens(ts.drop_last()) + written_token(ts.last())
    }
}

/// A written token is read back as itself. It is not empty, and it begins
/// and ends with a digit if and only if it is a number.
proof fn lemma_lex_reads_written_token(t: Token)
    requires
        t is Num ==> t.value() >= 0,
    ensures
        lex(written_token(t)) == Ok::<Seq<Token>, LexError>(seq![t]),
        written_token(t).len() > 0,
        is_digit(written_token(t)[0]) <==> t is Num,
        is_digit(written_token(t).last()) <==> t is Num,
{
    match t {
        Token::Num(v) => {
            lemma_lex_reads_written_number(v as nat);
            lemma_decimal_digits_shape(v as nat);
        },
        Token::Plus => {
            lemma_lex_operator('+');
        },
        Token::Minus => {
            lemma_lex_operator('-');
        },
    }
}

/// Tokens that are written one after the other are read back as they were,
/// as long as no number is negative and no number follows a number.
pub proof fn lemma_lex_reads_written_tokens(ts: Seq<Token>)
    requires
        forall|i: int| 0 <= i < ts.len() && (#[trigger] ts[i]) is Num ==> ts[i].value() >= 0,
        forall|i: int| 0 <= i < ts.len() - 1 ==> !((#[trigger] ts[i]) is Num && ts[i + 1] is Num),
    ensures
        lex(written_tokens(ts)) == Ok::<Seq<Token>, LexError>(ts),
        ts.len() > 0 ==> written_tokens(ts).len() > 0 && (is_digit(written_tokens(ts).last())
            <==> ts.last() is Num),
    decreases ts.len(),
{
    if ts.len() > 0 {
        let head = ts.drop_last();
        let last = ts.last();
        lemma_lex_reads_written_tokens(head);
        lemma_lex_reads_written_token(last);
        if head.len() > 0 {
            assert(head.last() == ts[ts.len() - 2]);
        }
        lemma_lex_joined(written_tokens(head), written_token(last));
        assert(head + seq![last] =~= ts);
    } else {
        assert(ts =~= Seq::<Token>::empty());
    }
}

/// How many of the tokens are numbers.
pub open spec fn number_count(ts: Seq<Token>) -> nat
    decreases ts.len(),
{
    if ts.len() == 0 {
        0
    } else if ts.last() is Num {
        number_count(ts.drop_last()) + 1
    } else {
        number_count(ts.drop_last())
    }
}

/// How many of the tokens are the operator `op`.
pub open spec fn token_count(ts: Seq<Token>, op: Token) -> nat
    decreases ts.len(),
{
    if ts.len() == 0 {
        0
    } else if ts.last() == op {
        token_count(ts.drop_last(), op) + 1
    } else {
        token_count(ts.drop_last(), op)
    }
}

/// How many times the character `c` stands in `s` at index `i` or after it.
pub open spec fn char_count(s: Seq<char>, i: int, c: char) -> nat
    decreases s.len() - i,
{
    if i < 0 || i >= s.len() {
        0
    } else if s[i] == c {
        1 + char_count(s, i + 1, c)
    } else {
        char_count(s, i + 1, c)
    }
}

/// How many number literals begin in `s` at index `i` or after it.
pub open spec fn literal_count(s: Seq<char>, i: int) -> nat
    decreases s.len() - i,
{
    if i < 0 || i >= s.len() {
        0
    } else if literal_start(s, i) {
        1 + literal_count(s, i + 1)
    } else {
        literal_count(s, i + 1)
    }
}

/// A token put in front of others is counted once more, with its kind.
proof fn lemma_counts_prepend(t: Token, rest: Seq<Token>, op: Token)
    ensures
        number_count(seq![t] + rest) == number_count(rest) + if t is Num {
            1nat
        } else {
            0nat
        },
        token_count(seq![t] + rest, op) == token_count(rest, op) + if t == op {
            1nat
        } else {
            0nat
        },
    decreases rest.len(),
{
    let ts = seq![t] + rest;
    assert(ts.last() == if rest.len() == 0 {
        t
    } else {
        rest.last()
    });
    if rest.len() == 0 {
        assert(ts.drop_last() =~= rest);
    } else {
        assert(ts.drop_last() =~= seq![t] + rest.drop_last());
        lemma_counts_prepend(t, rest.drop_last(), op);
    }
}

/// Within a stretch of digits no operator character is counted, and no
/// literal begins after its first digit.
proof fn lemma_counts_skip_digits(s: Seq<char>, i: int, j: int, c: char)
    requires
        0 <= i < j <= s.len(),
        forall|k: int| i <= k < j ==> is_digit(#[trigger] s[k]),
        is_operator_char(c),
    ensures
        char_count(s, i, c) == char_count(s, j, c),
        literal_count(s, i + 1) == literal_count(s, j),
    decreases j - i,
{
    assert(is_digit(s[i]));
    if i + 1 < j {
        lemma_counts_skip_digits(s, i + 1, j, c);
        assert(!literal_start(s, i + 1));
    }
}

/// The counts of the tokens read from index `i` on, where no literal is
/// entered in its middle.
proof fn lemma_lex_counts_from(s: Seq<char>, i: int)
    requires
        0 <= i <= s.len(),
        i == 0 || i == s.len() || !is_digit(s[i - 1]) || !is_digit(s[i]),
        lex_from(s, i) is Ok,
    ensures
        token_count(lex_from(s, i)->Ok_0, Token::Plus) == char_count(s, i, '+'),
        token_count(lex_from(s, i)->Ok_0, Token::Minus) == char_count(s, i, '-'),
        number_count(lex_from(s, i)->Ok_0) == literal_count(s, i),
    decreases s.len() - i,
{
    if i < s.len() {
        let ts = lex_from(s, i)->Ok_0;
        if is_digit(s[i]) {
            let end = i + digit_run(s, i);
            lemma_digit_run_bound(s, i);
            lemma_digit_run_digits(s, i);
            lemma_counts_skip_digits(s, i, end, '+');
            lemma_counts_skip_digits(s, i, end, '-');
            lemma_lex_counts_from(s, end);
            let rest = lex_from(s, end)->Ok_0;
            assert(ts == seq![ts[0]] + rest);
            assert(literal_start(s, i));
            lemma_counts_prepend(ts[0], rest, Token::Plus);
            lemma_counts_prepend(ts[0], rest, Token::Minus);
        } else {
            lemma_lex_counts_from(s, i + 1);
            let rest = lex_from(s, i + 1)->Ok_0;
            assert(ts == seq![ts[0]] + rest);
            lemma_counts_prepend(ts[0], rest, Token::Plus);
            lemma_counts_prepend(ts[0], rest, Token::Minus);
        }
    }
}

/// The tokens of a text hold one `Plus` for each `+` of the text, one `Minus`
/// for each `-`, and one number for each literal.
pub proof fn lemma_lex_counts(s: Seq<char>)
    requires
        lex(s) is Ok,
    ensures
        token_count(lex(s)->Ok_0, Token::Plus) == char_count(s, 0, '+'),
        token_count(lex(s)->Ok_0, Token::Minus) == char_count(s, 0, '-'),
        number_count(lex(s)->Ok_0) == literal_count(s, 0),
{
    lemma_lex_counts_from(s, 0);
}

/// Among the first `m` tokens of a well-formed sequence, the numbers are
/// those at the even places and the operators those at the odd places.
proof fn lemma_well_formed_counts_upto(ts: Seq<Token>, m: int)
    requires
        well_formed(ts),
        0 <= m <= ts.len(),
    ensures
        number_count(ts.take(m)) == (m + 1) / 2,
        token_count(ts.take(m), Token::Plus) + token_count(ts.take(m), Token::Minus) == m / 2,
    decreases m,
{
    if m > 0 {
        lemma_well_formed_counts_upto(ts, m - 1);
        assert(ts.take(m).drop_last() =~= ts.take(m - 1));
        assert(ts.take(m).last() == ts[m - 1]);
    }
}

/// A well-formed sequence of `2n + 1` tokens holds `n + 1` numbers and `n`
/// operators.
pub proof fn lemma_well_formed_counts(ts: Seq<Token>)
    requires
        well_formed(ts),
    ensures
        number_count(ts) == ts.len() / 2 + 1,
        token_count(ts, Token::Plus) + token_count(ts, Token::Minus) == ts.len() / 2,
{
    lemma_well_formed_counts_upto(ts, ts.len() as int);
    assert(ts.take(ts.len() as int) =~= ts);
}

/// The tokens of a text of the shape of an expression, read from the first
/// digit of one of its literals on.
proof fn lemma_lex_alternating_from(s: Seq<char>, i: int)
    requires
        alternating(s),
        0 <= i < s.len(),
        is_digit(s[i]),
        !(lex_from(s, i) matches Err(LexError::NumberTooLarge { .. })),
    ensures
        lex_from(s, i) is Ok,
        well_formed(lex_from(s, i)->Ok_0),
        lex_from(s, i)->Ok_0.len() == 2 * operator_count(s, i) + 1,
    decreases s.len() - i,
{
    let end = i + digit_run(s, i);
    lemma_digit_run_bound(s, i);
    lemma_digit_run_digits(s, i);
    lemma_operator_count_skips_digits(s, i, end);
    if end < s.len() {
        // The literal ends at an operator, which another literal follows.
        let number = Token::Num(decimal_value(s.subrange(i, end)) as i32);
        let op = if s[end] == '+' {
            Token::Plus
        } else {
            Token::Minus
        };
        let rest = lex_from(s, end + 1);
        assert(lex_from(s, end) == extend(seq![op], rest));
        lemma_lex_alternating_from(s, end + 1);
        let ts = seq![number] + (seq![op] + rest->Ok_0);
        assert(well_formed(ts));
    }
}

/// A text of the shape of an expression with `n` operators, and with no
/// literal above `i32::MAX`, gives `2n + 1` tokens, numbers and operators in
/// turn.
pub proof fn lemma_lex_alternating(s: Seq<char>)
    requires
        alternating(s),
        literals_fit(s),
    ensures
        lex(s) is Ok,
        well_formed(lex(s)->Ok_0),
        lex(s)->Ok_0.len() == 2 * operator_count(s, 0) + 1,
{
    lemma_lex_accepts(s);
    lemma_lex_alternating_from(s, 0);
}

/// Where the tokens read from the first digit of a literal on are numbers and
/// operators in turn, the text from there on is literals and operators in turn.
proof fn lemma_lex_expression_shape_from(s: Seq<char>, i: int)
    requires
        0 <= i,
        lex_from(s, i) is Ok,
        well_formed(lex_from(s, i)->Ok_0),
    ensures
        i < s.len(),
        is_digit(s[i]),
        is_digit(s.last()),
        forall|k: int|
            i <= k < s.len() - 1 && is_operator_char(#[trigger] s[k]) ==> is_digit(s[k + 1]),
    decreases s.len() - i,
{
    let ts = lex_from(s, i)->Ok_0;
    if i < s.len() && is_digit(s[i]) {
        let end = i + digit_run(s, i);
        lemma_digit_run_bound(s, i);
        lemma_digit_run_digits(s, i);
        let after = lex_from(s, end);
        assert(ts == seq![ts[0]] + after->Ok_0);
        if end < s.len() {
            // An operator ends the literal; what follows it gives the
            // tokens from the third on.
            let tail = lex_from(s, end + 1)->Ok_0;
            assert(after->Ok_0 == seq![ts[1]] + tail);
            assert(well_formed(tail)) by {
                assert forall|k: int| 0 <= k < tail.len() implies if k % 2 == 0 {
                    (#[trigger] tail[k]) is Num
                } else {
                    tail[k].is_operator()
                } by {
                    assert(tail[k] == ts[k + 2]);
                }
            }
            lemma_lex_expression_shape_from(s, end + 1);
        }
    } else if i < s.len() {
        // An operator would be the first token.
        assert(ts == seq![ts[0]] + lex_from(s, i + 1)->Ok_0);
    }
}

/// Where the tokens of a text are numbers and operators in turn, the text has
/// the shape of an expression.
pub proof fn lemma_lex_expression_shape(s: Seq<char>)
    requires
        lex(s) is Ok,
        well_formed(lex(s)->Ok_0),
    ensures
        alternating(s),
{
    lemma_lex_expression_shape_from(s, 0);
    lemma_lex_accepts(s);
}

/// What reading from index `i` on comes to, where no literal is entered in
/// its middle: success if nothing is wrong from `i` on, and else an error
/// with the first index at which something is wrong.
proof fn lemma_lex_outcome_from(s: Seq<char>, i: int)
    requires
        0 <= i <= s.len(),
        i == 0 || i == s.len() || !is_digit(s[i - 1]) || !is_digit(s[i]),
    ensures
        lex_from(s, i) is Ok <==> forall|k: int| i <= k < s.len() ==> sound_at(s, k),
        s.len() <= usize::MAX ==> (match lex_from(s, i) {
            Ok(_) => true,
            Err(e) => {
                &&& i <= e.position() < s.len()
                &&& forall|k: int| i <= k < e.position() ==> sound_at(s, k)
                &&& match e {
                    LexError::UnexpectedChar { pos, found } => found == s[pos as int]
                        && !is_token_char(found),
                    LexError::NumberTooLarge { pos } => literal_start(s, pos as int)
                        && literal_value(s, pos as int) > i32::MAX,
                }
            },
        }),
    decreases s.len() - i,
{
    if i < s.len() {
        if is_operator_char(s[i]) {
            lemma_lex_outcome_from(s, i + 1);
            assert(sound_at(s, i));
            assert(lex_from(s, i) is Ok <==> lex_from(s, i + 1) is Ok);
        } else if is_digit(s[i]) {
            let end = i + digit_run(s, i);
            lemma_digit_run_bound(s, i);
            lemma_digit_run_digits(s, i);
            assert(literal_start(s, i));
            if literal_value(s, i) <= i32::MAX {
                lemma_lex_outcome_from(s, end);
                assert(lex_from(s, i) is Ok <==> lex_from(s, end) is Ok);
                assert forall|k: int| i <= k < end implies sound_at(s, k) by {
                    if k > i {
                        assert(is_digit(s[k - 1]));
                    }
                }
            } else {
                assert(!sound_at(s, i));
            }
        } else {
            assert(!sound_at(s, i));
        }
    }
}

/// A text is split into tokens if and only if each of its characters is a
/// digit or an operator and none of its literals is above `i32::MAX`.
pub proof fn lemma_lex_accepts(s: Seq<char>)
    ensures
        lex(s) is Ok <==> all_token_chars(s) && literals_fit(s),
{
    lemma_lex_outcome_from(s, 0);
    if all_token_chars(s) && literals_fit(s) {
        assert forall|k: int| 0 <= k < s.len() implies sound_at(s, k) by {}
    }
    if lex(s) is Ok {
        assert forall|k: int| 0 <= k < s.len() implies is_token_char(#[trigger] s[k]) by {
            assert(sound_at(s, k));
        }
        assert forall|k: int| #[trigger] literal_start(s, k) implies literal_value(s, k)
            <= i32::MAX by {
            assert(sound_at(s, k));
        }
    }
}

/// The error that a text is rejected with names the first index at which
/// something is wrong, and says what: a character that is no digit and no
/// operator, or the beginning of a literal above `i32::MAX`.
pub proof fn lemma_lex_first_error(s: Seq<char>, e: LexError)
    requires
        s.len() <= usize::MAX,
        lex(s) == Err::<Seq<Token>, LexError>(e),
    ensures
        e.position() < s.len(),
        forall|k: int| 0 <= k < e.position() ==> sound_at(s, k),
        (match e {
            LexError::UnexpectedChar { pos, found } => found == s[pos as int] && !is_token_char(
                found,
            ),
            LexError::NumberTooLarge { pos } => literal_start(s, pos as int) && literal_value(
                s,
                pos as int,
            ) > i32::MAX,
        }),
{
    lemma_lex_outcome_from(s, 0);
}

/// The numbers among the tokens of a text are not negative: a sign is a token
/// of its own.
pub proof fn lemma_lex_numbers_not_negative(s: Seq<char>, i: int)
    requires
        0 <= i,
        lex_from(s, i) is Ok,
    ensures
        forall|k: int|
            0 <= k < lex_from(s, i)->Ok_0.len() && (#[trigger] lex_from(s, i)->Ok_0[k]) is Num
                ==> lex_from(s, i)->Ok_0[k].value() >= 0,
    decreases s.len() - i,
{
    if i < s.len() {
        if is_digit(s[i]) {
            let end = i + digit_run(s, i);
            lemma_digit_run_bound(s, i);
            lemma_digit_run_digits(s, i);
            lemma_decimal_value_prefix(s.subrange(i, end), 0);
            lemma_lex_numbers_not_negative(s, end);
        } else {
            lemma_lex_numbers_not_negative(s, i + 1);
        }
    }
}

/// Two results of splitting the same text are the same.
pub proof fn lemma_parse_deterministic(
    a: Seq<char>,
    b: Seq<char>,
    first: Result<Vec<Token>, LexError>,
    second: Result<Vec<Token>, LexError>,
)
    requires
        a == b,
        tokens_view(first) == lex(a),
        tokens_view(second) == lex(b),
    ensures
        tokens_view(first) == tokens_view(second),
{
}

} // verus!
