use shunting_yard::lexer::{lex, LexError};
use shunting_yard::postfix::{rpn, rpn_drain, rpn_step};
use shunting_yard::token::{Ary, Assoc, Op, Token};

fn unary(symbol: char, prec: u8) -> Token {
    Token::Operator(Op { symbol, ary: Ary::Unary, assoc: Assoc::Right, prec })
}

fn binary(symbol: char, prec: u8) -> Token {
    Token::Operator(Op { symbol, ary: Ary::Binary, assoc: Assoc::Left, prec })
}

fn postfix_of(text: &str) -> Vec<Token> {
    let tokens = lex(text).unwrap();
    rpn(&tokens[..]).into_iter().cloned().collect()
}

#[test]
fn unary_detect() {
    let expected = vec![
        Token::Operator(Op { symbol: '-', ary: Ary::Unary, assoc: Assoc::Right, prec: 8 }),
        Token::Operator(Op { symbol: '+', ary: Ary::Unary, assoc: Assoc::Right, prec: 8 }),
        Token::Operator(Op { symbol: '-', ary: Ary::Unary, assoc: Assoc::Right, prec: 8 }),
        Token::Number(1),
        Token::Operator(Op { symbol: '*', ary: Ary::Binary, assoc: Assoc::Left, prec: 7 }),
        Token::Operator(Op { symbol: '-', ary: Ary::Unary, assoc: Assoc::Right, prec: 8 }),
        Token::Operator(Op { symbol: '+', ary: Ary::Unary, assoc: Assoc::Right, prec: 8 }),
        Token::Operator(Op { symbol: '-', ary: Ary::Unary, assoc: Assoc::Right, prec: 8 }),
        Token::RealVar("R1".to_string()),
    ];
    assert_eq!(lex("- + - 1 * - + - R1").unwrap(), expected);
}

#[test]
fn long_unary_chains() {
    let input = "+ - - 1 * + - - 2";
    let tokens = lex(input).unwrap();
    let expected = vec![
        Token::Number(1),
        Token::Operator(Op { symbol: '-', ary: Ary::Unary, assoc: Assoc::Right, prec: 8 }),
        Token::Operator(Op { symbol: '-', ary: Ary::Unary, assoc: Assoc::Right, prec: 8 }),
        Token::Operator(Op { symbol: '+', ary: Ary::Unary, assoc: Assoc::Right, prec: 8 }),
        Token::Number(2),
        Token::Operator(Op { symbol: '-', ary: Ary::Unary, assoc: Assoc::Right, prec: 8 }),
        Token::Operator(Op { symbol: '-', ary: Ary::Unary, assoc: Assoc::Right, prec: 8 }),
        Token::Operator(Op { symbol: '+', ary: Ary::Unary, assoc: Assoc::Right, prec: 8 }),
        Token::Operator(Op { symbol: '*', ary: Ary::Binary, assoc: Assoc::Left, prec: 7 }),
    ];
    let actual: Vec<Token> = rpn(&tokens[..]).iter().map(|t| *t).cloned().collect();
    assert_eq!(actual, expected);
}

#[test]
fn digits_make_one_number() {
    assert_eq!(lex("42").unwrap(), vec![Token::Number(42)]);
    assert_eq!(lex("0").unwrap(), vec![Token::Number(0)]);
    assert_eq!(lex("18446744073709551615").unwrap(), vec![Token::Number(u64::MAX)]);
}

#[test]
fn number_past_u64_wraps() {
    assert_eq!(lex("18446744073709551616").unwrap(), vec![Token::Number(0)]);
    assert_eq!(lex("18446744073709551626").unwrap(), vec![Token::Number(10)]);
}

#[test]
fn sign_after_operand_or_closing_bracket_is_binary() {
    assert_eq!(
        lex("1 - 2").unwrap(),
        vec![Token::Number(1), binary('-', 5), Token::Number(2)]
    );
    assert_eq!(
        lex("(1)+R2").unwrap(),
        vec![
            Token::LeftBracket,
            Token::Number(1),
            Token::RightBracket,
            binary('+', 5),
            Token::RealVar("R2".to_string()),
        ]
    );
    assert_eq!(
        lex("[B]-1").unwrap(),
        vec![
            Token::LeftBracket,
            Token::BoolVar("B".to_string()),
            Token::RightBracket,
            binary('-', 5),
            Token::Number(1),
        ]
    );
}

#[test]
fn sign_after_bracket_or_operator_is_unary() {
    assert_eq!(
        lex("(-1) ^ +2").unwrap(),
        vec![
            Token::LeftBracket,
            unary('-', 8),
            Token::Number(1),
            Token::RightBracket,
            binary('^', 6),
            unary('+', 8),
            Token::Number(2),
        ]
    );
}

#[test]
fn operator_table() {
    assert_eq!(
        lex("* / ^ < > = # ~ & !").unwrap(),
        vec![
            binary('*', 7),
            binary('/', 7),
            binary('^', 6),
            binary('<', 4),
            binary('>', 4),
            binary('=', 4),
            binary('#', 4),
            unary('~', 3),
            binary('&', 2),
            binary('!', 2),
        ]
    );
}

#[test]
fn identifiers_are_greedy() {
    assert_eq!(
        lex("Rab1 Bx2y<R").unwrap(),
        vec![
            Token::RealVar("Rab1".to_string()),
            Token::BoolVar("Bx2y".to_string()),
            binary('<', 4),
            Token::RealVar("R".to_string()),
        ]
    );
}

#[test]
fn whitespace_is_skipped() {
    assert_eq!(lex("").unwrap(), vec![]);
    assert_eq!(lex(" \t\n ").unwrap(), vec![]);
    assert_eq!(lex("1\u{a0}2").unwrap(), vec![Token::Number(1), Token::Number(2)]);
}

#[test]
fn unknown_character_fails() {
    assert_eq!(lex("@"), Err(LexError { ch: '@', pos: 0 }));
    assert_eq!(lex("1 + @ + x"), Err(LexError { ch: '@', pos: 4 }));
    assert_eq!(lex("x1"), Err(LexError { ch: 'x', pos: 0 }));
    assert_eq!(lex("Rx + é"), Err(LexError { ch: 'é', pos: 5 }));
}

#[test]
fn precedence_and_left_caret() {
    let expected = vec![
        Token::Number(3),
        Token::Number(4),
        Token::Number(2),
        binary('*', 7),
        Token::Number(1),
        Token::Number(5),
        binary('-', 5),
        binary('/', 7),
        Token::Number(6),
        binary('^', 6),
        Token::Number(7),
        binary('^', 6),
        binary('+', 5),
    ];
    assert_eq!(postfix_of("3 + 4 * 2 / ( 1 - 5 ) ^ 6 ^ 7"), expected);
}

#[test]
fn brackets_leave_the_output() {
    let input = lex("(1 + [2 * 3]) - 4").unwrap();
    let output = rpn(&input[..]);
    assert_eq!(input.len(), 11);
    assert_eq!(output.len(), 7);
}

#[test]
fn unclosed_left_bracket_stays() {
    let output = postfix_of("( 1 + 2");
    assert_eq!(
        output,
        vec![Token::Number(1), Token::Number(2), binary('+', 5), Token::LeftBracket]
    );
}

#[test]
fn stray_right_bracket_is_dropped() {
    let output = postfix_of("1 ) + 2");
    assert_eq!(output, vec![Token::Number(1), Token::Number(2), binary('+', 5)]);
}

#[test]
fn functions_pop_before_operators() {
    let input = vec![
        Token::Function("f".to_string()),
        Token::LeftBracket,
        Token::Number(1),
        Token::RightBracket,
        binary('+', 5),
        Token::Number(2),
    ];
    let output: Vec<Token> = rpn(&input[..]).into_iter().cloned().collect();
    assert_eq!(
        output,
        vec![
            Token::Number(1),
            Token::Function("f".to_string()),
            Token::Number(2),
            binary('+', 5),
        ]
    );
}

#[test]
fn operands_alone_are_unchanged() {
    let input = vec![Token::Number(1), Token::RealVar("R".to_string()), Token::Number(7)];
    let once: Vec<Token> = rpn(&input[..]).into_iter().cloned().collect();
    assert_eq!(once, input);
    let twice: Vec<Token> = rpn(&once[..]).into_iter().cloned().collect();
    assert_eq!(twice, once);
}

#[test]
fn token_predicates() {
    assert!(Token::binary_left_assoc('*', 7).is_operator());
    assert!(!Token::Number(1).is_operator());
    assert!(Token::LeftBracket.is_left_paren());
    assert!(!Token::RightBracket.is_left_paren());
    assert_eq!(Token::unary_right_assoc('~', 3), unary('~', 3));
}

#[test]
fn token_text() {
    assert_eq!(Token::Number(0).text(), "0");
    assert_eq!(Token::Number(1203).text(), "1203");
    assert_eq!(Token::Number(u64::MAX).text(), "18446744073709551615");
    assert_eq!(Token::RealVar("R1".to_string()).text(), "R1");
    assert_eq!(Token::BoolVar("Bq".to_string()).text(), "Bq");
    assert_eq!(Token::Function("f".to_string()).text(), "f");
    assert_eq!(unary('-', 8).text(), "m");
    assert_eq!(unary('+', 8).text(), "p");
    assert_eq!(unary('~', 3).text(), "~");
    assert_eq!(binary('-', 5).text(), "-");
    assert_eq!(binary('^', 6).text(), "^");
    assert_eq!(Token::LeftBracket.text(), "[");
    assert_eq!(Token::RightBracket.text(), "]");
}

#[test]
fn steps_then_drain_match_rpn() {
    let tokens = lex("3 + 4 * 2 / ( 1 - 5 ) ^ 6 ^ 7").unwrap();
    let mut stack: Vec<&Token> = Vec::new();
    let mut output: Vec<&Token> = Vec::new();
    for token in &tokens {
        rpn_step(&mut stack, &mut output, token);
    }
    assert_eq!(stack.len(), 2);
    rpn_drain(&mut stack, &mut output);
    assert!(stack.is_empty());
    assert_eq!(output, rpn(&tokens[..]));
    let shown: Vec<String> = output.iter().map(|t| t.text()).collect();
    assert_eq!(shown.join(" "), "3 4 2 * 1 5 - / 6 ^ 7 ^ +");
}

#[test]
fn operands_keep_their_order() {
    let output = postfix_of("Ra + 2 * (Bb - 3) ^ 4");
    let operands: Vec<Token> = output
        .into_iter()
        .filter(|t| matches!(t, Token::Number(_) | Token::RealVar(_) | Token::BoolVar(_)))
        .collect();
    assert_eq!(
        operands,
        vec![
            Token::RealVar("Ra".to_string()),
            Token::Number(2),
            Token::BoolVar("Bb".to_string()),
            Token::Number(3),
            Token::Number(4),
        ]
    );
}
