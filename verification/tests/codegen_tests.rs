use arith_asm::{generate, output_asm, parse, render, run, FormatError, Instr, Token};

fn lines(text: &[&str]) -> Vec<String> {
    text.iter().map(|line| line.to_string()).collect()
}

#[test]
fn zero_is_loaded_and_nothing_is_added() {
    let tokens = parse(&"0".to_string()).unwrap();
    assert_eq!(vec![Token::Num(0)], tokens);
    let code = generate(&tokens).unwrap();
    assert_eq!(vec![Instr::LoadImm(0)], code);
    assert_eq!(0, run(&code));
}

#[test]
fn sum_adds_the_number() {
    let tokens = parse(&"1+1".to_string()).unwrap();
    let code = generate(&tokens).unwrap();
    assert_eq!(
        vec![
            Instr::LoadImm(1),
            Instr::AddImm {
                negated: false,
                number: 1
            }
        ],
        code
    );
    assert_eq!("addi   a5, a5, 1", render(&code[1]));
    assert_eq!(2, run(&code));
}

#[test]
fn difference_adds_the_number_negated() {
    let tokens = parse(&"1-1".to_string()).unwrap();
    let code = generate(&tokens).unwrap();
    assert_eq!(
        vec![
            Instr::LoadImm(1),
            Instr::AddImm {
                negated: true,
                number: 1
            }
        ],
        code
    );
    assert_eq!("addi   a5, a5, -1", render(&code[1]));
    assert_eq!(0, run(&code));
}

#[test]
fn evaluation_goes_from_left_to_right() {
    let tokens = parse(&"1-2+3".to_string()).unwrap();
    let code = generate(&tokens).unwrap();
    assert_eq!(
        vec![
            Instr::LoadImm(1),
            Instr::AddImm {
                negated: true,
                number: 2
            },
            Instr::AddImm {
                negated: false,
                number: 3
            }
        ],
        code
    );
    assert_eq!(2, run(&code));

    let tokens = parse(&"10-20-30+5".to_string()).unwrap();
    assert_eq!(-35, run(&generate(&tokens).unwrap()));
}

#[test]
fn trailing_operator_is_rejected() {
    let tokens = parse(&"1+".to_string()).unwrap();
    assert_eq!(vec![Token::Num(1), Token::Plus], tokens);
    assert_eq!(Err(FormatError::NotWellFormed), generate(&tokens));
    assert_eq!(Err(FormatError::NotWellFormed), output_asm(tokens));
}

#[test]
fn no_tokens_are_rejected() {
    assert_eq!(Err(FormatError::FirstTokenNotNumber), generate(&vec![]));
    assert_eq!(Err(FormatError::FirstTokenNotNumber), output_asm(vec![]));
}

#[test]
fn leading_operator_is_rejected() {
    let tokens = vec![Token::Minus, Token::Num(1)];
    assert_eq!(Err(FormatError::FirstTokenNotNumber), generate(&tokens));
    assert_eq!(
        Err(FormatError::FirstTokenNotNumber),
        output_asm(vec![Token::Plus])
    );
}

#[test]
fn two_operators_in_a_row_are_rejected() {
    let tokens = parse(&"1+-2".to_string()).unwrap();
    assert_eq!(Err(FormatError::NotWellFormed), generate(&tokens));
}

#[test]
fn number_in_the_place_of_an_operator_is_rejected() {
    let tokens = vec![Token::Num(1), Token::Num(2)];
    assert_eq!(Err(FormatError::NotWellFormed), generate(&tokens));
    let tokens = vec![Token::Num(1), Token::Plus, Token::Num(2), Token::Num(3)];
    assert_eq!(Err(FormatError::NotWellFormed), generate(&tokens));
    assert_eq!(Err(FormatError::NotWellFormed), output_asm(tokens));
}

#[test]
fn assembly_of_a_single_number() {
    assert_eq!(
        Ok(lines(&[
            "main:",
            "addi  sp, sp, -16",
            "sw    s0, 12(sp)",
            "addi  s0, sp, 16",
            "li    a5, 0",
            "mv    a0, a5",
            "lw    s0, 12(sp)",
            "addi  sp, sp, 16",
            "jr    ra",
        ])),
        output_asm(vec![Token::Num(0)])
    );
}

#[test]
fn assembly_of_a_sum_and_a_difference() {
    assert_eq!(
        Ok(lines(&[
            "main:",
            "addi  sp, sp, -16",
            "sw    s0, 12(sp)",
            "addi  s0, sp, 16",
            "li    a5, 1",
            "addi   a5, a5, -2",
            "addi   a5, a5, 30",
            "mv    a0, a5",
            "lw    s0, 12(sp)",
            "addi  sp, sp, 16",
            "jr    ra",
        ])),
        output_asm(vec![
            Token::Num(1),
            Token::Minus,
            Token::Num(2),
            Token::Plus,
            Token::Num(30)
        ])
    );
}

#[test]
fn subtracted_zero_is_written_with_its_sign() {
    let code = generate(&vec![Token::Num(4), Token::Minus, Token::Num(0)]).unwrap();
    assert_eq!(
        vec![
            Instr::LoadImm(4),
            Instr::AddImm {
                negated: true,
                number: 0
            }
        ],
        code
    );
    assert_eq!("addi   a5, a5, -0", render(&code[1]));
    assert_eq!(4, run(&code));
    assert_eq!(
        Ok(lines(&[
            "main:",
            "addi  sp, sp, -16",
            "sw    s0, 12(sp)",
            "addi  s0, sp, 16",
            "li    a5, 4",
            "addi   a5, a5, -0",
            "addi   a5, a5, 0",
            "mv    a0, a5",
            "lw    s0, 12(sp)",
            "addi  sp, sp, 16",
            "jr    ra",
        ])),
        output_asm(parse(&"4-0+0".to_string()).unwrap())
    );
}

#[test]
fn largest_number_is_negated_without_loss() {
    let code = generate(&vec![Token::Num(0), Token::Minus, Token::Num(i32::MAX)]).unwrap();
    assert_eq!("addi   a5, a5, -2147483647", render(&code[1]));
    assert_eq!(-2147483647, run(&code));
}

#[test]
fn negative_number_token_is_written_as_it_stands() {
    let code = generate(&vec![Token::Num(5), Token::Minus, Token::Num(-3)]).unwrap();
    assert_eq!(
        vec![
            Instr::LoadImm(5),
            Instr::AddImm {
                negated: true,
                number: -3
            }
        ],
        code
    );
    assert_eq!("addi   a5, a5, --3", render(&code[1]));
    assert_eq!(8, run(&code));
    let code = generate(&vec![Token::Num(-1), Token::Minus, Token::Num(i32::MIN)]).unwrap();
    assert_eq!("li    a5, -1", render(&code[0]));
    assert_eq!("addi   a5, a5, --2147483648", render(&code[1]));
    assert_eq!(2147483647, run(&code));
}

#[test]
fn instruction_lines() {
    assert_eq!("li    a5, 0", render(&Instr::LoadImm(0)));
    assert_eq!("li    a5, 2147483647", render(&Instr::LoadImm(i32::MAX)));
    assert_eq!("li    a5, -12", render(&Instr::LoadImm(-12)));
    let add = |number: i32| Instr::AddImm {
        negated: false,
        number,
    };
    let add_negated = |number: i32| Instr::AddImm {
        negated: true,
        number,
    };
    assert_eq!("addi   a5, a5, 1", render(&add(1)));
    assert_eq!("addi   a5, a5, 0", render(&add(0)));
    assert_eq!("addi   a5, a5, 1000", render(&add(1000)));
    assert_eq!("addi   a5, a5, -1", render(&add_negated(1)));
    assert_eq!("addi   a5, a5, -0", render(&add_negated(0)));
    assert_eq!("addi   a5, a5, -2147483647", render(&add_negated(i32::MAX)));
}

#[test]
fn run_of_no_code_is_zero() {
    assert_eq!(0, run(&vec![]));
}

#[test]
fn run_adds_without_wrapping() {
    let code = vec![
        Instr::LoadImm(i32::MAX),
        Instr::AddImm {
            negated: false,
            number: i32::MAX,
        },
        Instr::AddImm {
            negated: false,
            number: 2,
        },
    ];
    assert_eq!(4294967296, run(&code));
    let code = vec![
        Instr::AddImm {
            negated: false,
            number: i32::MIN,
        },
        Instr::AddImm {
            negated: true,
            number: i32::MAX,
        },
        Instr::AddImm {
            negated: true,
            number: 2,
        },
    ];
    assert_eq!(-4294967297, run(&code));
}

#[test]
fn load_replaces_the_accumulator() {
    let add = |number: i32| Instr::AddImm {
        negated: false,
        number,
    };
    let code = vec![Instr::LoadImm(5), add(1), Instr::LoadImm(7)];
    assert_eq!(7, run(&code));
    let code = vec![add(4), add(4)];
    assert_eq!(8, run(&code));
}

#[test]
fn diagnostics() {
    assert_eq!(
        "first token must be a number",
        FormatError::FirstTokenNotNumber.message()
    );
    assert_eq!(
        "not a well-formed formula",
        FormatError::NotWellFormed.message()
    );
}
