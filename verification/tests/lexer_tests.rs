use arith_asm::{parse, LexError, Lexer, Token};

#[test]
fn parse_number_1() {
    let program = "0".to_string();
    assert_eq!(Ok(vec![Token::Num(0)]), parse(&program));
}

#[test]
fn parse_formula_1() {
    let program = "1+1".to_string();
    assert_eq!(
        Ok(vec![Token::Num(1), Token::Plus, Token::Num(1)]),
        parse(&program)
    );
}

#[test]
fn parse_formula_2() {
    let program = "1-1".to_string();
    assert_eq!(
        Ok(vec![Token::Num(1), Token::Minus, Token::Num(1)]),
        parse(&program)
    );
}

#[test]
fn parse_formula_3() {
    let program = "1-2+3".to_string();
    assert_eq!(
        Ok(vec![
            Token::Num(1),
            Token::Minus,
            Token::Num(2),
            Token::Plus,
            Token::Num(3)
        ]),
        parse(&program)
    );
}

#[test]
fn digits_alone_are_one_number() {
    assert_eq!(Ok(vec![Token::Num(12345)]), parse(&"12345".to_string()));
    assert_eq!(Ok(vec![Token::Num(9)]), parse(&"9".to_string()));
}

#[test]
fn leading_zeros_do_not_change_the_value() {
    assert_eq!(Ok(vec![Token::Num(7)]), parse(&"007".to_string()));
    assert_eq!(
        Ok(vec![Token::Num(1)]),
        parse(&"00000000000000000000000001".to_string())
    );
}

#[test]
fn largest_literal_is_accepted() {
    assert_eq!(
        Ok(vec![Token::Num(i32::MAX)]),
        parse(&"2147483647".to_string())
    );
}

#[test]
fn literal_above_the_largest_is_rejected() {
    assert_eq!(
        Err(LexError::NumberTooLarge { pos: 0 }),
        parse(&"2147483648".to_string())
    );
    assert_eq!(
        Err(LexError::NumberTooLarge { pos: 2 }),
        parse(&"1+99999999999999999999999999".to_string())
    );
}

#[test]
fn too_large_literal_is_reported_before_a_later_bad_character() {
    assert_eq!(
        Err(LexError::NumberTooLarge { pos: 0 }),
        parse(&"4000000000 x".to_string())
    );
}

#[test]
fn bad_character_is_reported_before_a_later_too_large_literal() {
    assert_eq!(
        Err(LexError::UnexpectedChar { pos: 0, found: 'x' }),
        parse(&"x4000000000".to_string())
    );
}

#[test]
fn numbers_and_operators_in_turn() {
    let tokens = parse(&"10+20-30+40".to_string()).unwrap();
    assert_eq!(7, tokens.len());
    assert_eq!(
        vec![
            Token::Num(10),
            Token::Plus,
            Token::Num(20),
            Token::Minus,
            Token::Num(30),
            Token::Plus,
            Token::Num(40)
        ],
        tokens
    );
    for (i, token) in tokens.iter().enumerate() {
        if i % 2 == 0 {
            assert!(matches!(token, Token::Num(_)));
        } else {
            assert!(matches!(token, Token::Plus | Token::Minus));
        }
    }
}

#[test]
fn same_text_gives_same_tokens() {
    let program = "12-7+300".to_string();
    let first = parse(&program);
    let second = parse(&program);
    assert_eq!(first, second);
    let bad = "12-7+x".to_string();
    assert_eq!(parse(&bad), parse(&bad));
}

#[test]
fn empty_text_has_no_tokens() {
    assert_eq!(Ok(vec![]), parse(&String::new()));
}

#[test]
fn letter_is_rejected() {
    assert_eq!(
        Err(LexError::UnexpectedChar { pos: 2, found: 'a' }),
        parse(&"1+a".to_string())
    );
}

#[test]
fn white_space_is_rejected() {
    assert_eq!(
        Err(LexError::UnexpectedChar { pos: 1, found: ' ' }),
        parse(&"1 + 2".to_string())
    );
    assert_eq!(
        Err(LexError::UnexpectedChar { pos: 3, found: '\n' }),
        parse(&"1+1\n".to_string())
    );
}

#[test]
fn position_counts_characters_not_bytes() {
    assert_eq!(
        Err(LexError::UnexpectedChar { pos: 0, found: 'é' }),
        parse(&"é1".to_string())
    );
    assert_eq!(
        Err(LexError::UnexpectedChar { pos: 2, found: '٣' }),
        parse(&"1+٣".to_string())
    );
}

#[test]
fn operators_need_no_numbers_to_be_tokens() {
    assert_eq!(
        Ok(vec![Token::Plus, Token::Minus, Token::Minus, Token::Num(4)]),
        parse(&"+--4".to_string())
    );
}

#[test]
fn lexer_looks_at_the_text_without_moving() {
    let lexer = Lexer::new(&"12+".to_string());
    assert_eq!(Some('1'), lexer.cur());
    assert_eq!(Some('2'), lexer.next());
    assert_eq!(Some('1'), lexer.cur());
}

#[test]
fn lexer_moves_one_character_at_a_time() {
    let mut lexer = Lexer::new(&"12+".to_string());
    lexer.incr();
    assert_eq!(Some('2'), lexer.cur());
    assert_eq!(Some('+'), lexer.next());
    lexer.incr();
    assert_eq!(Some('+'), lexer.cur());
    assert_eq!(None, lexer.next());
    lexer.incr();
    assert_eq!(None, lexer.cur());
    assert_eq!(None, lexer.next());
}

#[test]
fn lexer_over_empty_text_has_nothing_to_show() {
    let lexer = Lexer::new(&String::new());
    assert_eq!(None, lexer.cur());
    assert_eq!(None, lexer.next());
}

#[test]
fn tokenize_begins_at_the_cursor() {
    let mut lexer = Lexer::new(&"12+3".to_string());
    lexer.incr();
    assert_eq!(
        Ok(vec![Token::Num(2), Token::Plus, Token::Num(3)]),
        lexer.tokenize()
    );
}

#[test]
fn tokenize_leaves_the_cursor_behind_the_text() {
    let mut lexer = Lexer::new(&"1-2".to_string());
    assert_eq!(
        Ok(vec![Token::Num(1), Token::Minus, Token::Num(2)]),
        lexer.tokenize()
    );
    assert_eq!(None, lexer.cur());
    assert_eq!(Ok(vec![]), lexer.tokenize());
}

#[test]
fn tokenize_leaves_the_cursor_at_the_error() {
    let mut lexer = Lexer::new(&"1+a2".to_string());
    assert_eq!(
        Err(LexError::UnexpectedChar { pos: 2, found: 'a' }),
        lexer.tokenize()
    );
    assert_eq!(Some('a'), lexer.cur());
    assert_eq!(Some('2'), lexer.next());

    let mut lexer = Lexer::new(&"7-2147483648+1".to_string());
    assert_eq!(Err(LexError::NumberTooLarge { pos: 2 }), lexer.tokenize());
    assert_eq!(Some('2'), lexer.cur());
    assert_eq!(Some('1'), lexer.next());
}

#[test]
fn tokens_of_joined_texts_join() {
    let first = "12-".to_string();
    let second = "3+4".to_string();
    let mut expected = parse(&first).unwrap();
    expected.extend(parse(&second).unwrap());
    assert_eq!(Ok(expected), parse(&format!("{}{}", first, second)));

    let first = "12".to_string();
    let second = "+3".to_string();
    let mut expected = parse(&first).unwrap();
    expected.extend(parse(&second).unwrap());
    assert_eq!(Ok(expected), parse(&format!("{}{}", first, second)));
}

#[test]
fn digits_that_meet_are_one_literal() {
    assert_eq!(Ok(vec![Token::Num(123)]), parse(&format!("{}{}", "12", "3")));
}

#[test]
fn one_token_for_each_operator_and_each_literal() {
    let text = "10+20-30+40-050";
    let tokens = parse(&text.to_string()).unwrap();
    let plus = tokens.iter().filter(|t| **t == Token::Plus).count();
    let minus = tokens.iter().filter(|t| **t == Token::Minus).count();
    let numbers = tokens
        .iter()
        .filter(|t| matches!(t, Token::Num(_)))
        .count();
    assert_eq!(text.matches('+').count(), plus);
    assert_eq!(text.matches('-').count(), minus);
    assert_eq!(2, plus);
    assert_eq!(2, minus);
    assert_eq!(5, numbers);
}

#[test]
fn each_token_is_its_literal_or_its_operator() {
    assert_eq!(
        Ok(vec![
            Token::Num(7),
            Token::Minus,
            Token::Num(2147483647),
            Token::Plus,
            Token::Num(0),
            Token::Minus,
            Token::Num(42)
        ]),
        parse(&"007-2147483647+0-42".to_string())
    );
}

#[test]
fn written_tokens_are_read_back() {
    let tokens = vec![
        Token::Minus,
        Token::Num(0),
        Token::Plus,
        Token::Plus,
        Token::Num(2147483647),
        Token::Minus,
        Token::Num(10),
    ];
    let mut text = String::new();
    for token in &tokens {
        match token {
            Token::Num(v) => text.push_str(&format!("{}", v)),
            Token::Plus => text.push('+'),
            Token::Minus => text.push('-'),
        }
    }
    assert_eq!("-0++2147483647-10", text);
    assert_eq!(Ok(tokens), parse(&text));
}
