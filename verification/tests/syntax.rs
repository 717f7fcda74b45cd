use calculator::error::EvalError;
use calculator::postfix::Instr;
use calculator::syntax::{canonical, compile, is_blank, is_digit, normalize, ExpressionParser};

fn chars(text: &str) -> Vec<char> {
    text.chars().collect()
}

fn compiled(text: &str) -> (Vec<Instr>, Option<EvalError>) {
    compile(&normalize(&chars(text)))
}

fn number(start: usize, end: usize) -> Instr {
    Instr::Number { start, end }
}

#[test]
fn characters_are_classified() {
    for c in "0123456789".chars() {
        assert!(is_digit(c));
    }
    for c in "/:aA+.٣".chars() {
        assert!(!is_digit(c));
    }
    for c in " \t\n\r\u{c}".chars() {
        assert!(is_blank(c));
    }
    for c in "0x\u{b}\u{a0}".chars() {
        assert!(!is_blank(c));
    }
    assert_eq!(canonical('×'), '*');
    assert_eq!(canonical('÷'), '/');
    assert_eq!(canonical('*'), '*');
    assert_eq!(canonical('x'), 'x');
}

#[test]
fn normalizing_drops_blanks_and_replaces_glyphs() {
    assert_eq!(normalize(&chars(" 1 × 2 ÷ 3 ")), chars("1*2/3"));
    assert_eq!(normalize(&chars("")), chars(""));
    assert_eq!(normalize(&chars(" \t\n")), chars(""));
    assert_eq!(normalize(&chars("(a+b)")), chars("(a+b)"));
}

#[test]
fn code_is_postfix() {
    assert_eq!(
        compiled("1+2*3"),
        (vec![number(0, 1), number(2, 3), number(4, 5), Instr::Multiply, Instr::Add], None)
    );
    assert_eq!(
        compiled("(1+2)*3"),
        (vec![number(1, 2), number(3, 4), Instr::Add, number(6, 7), Instr::Multiply], None)
    );
    assert_eq!(
        compiled("8-4-2"),
        (vec![number(0, 1), number(2, 3), Instr::Subtract, number(4, 5), Instr::Subtract], None)
    );
    assert_eq!(
        compiled("8÷4÷2"),
        (vec![number(0, 1), number(2, 3), Instr::Divide, number(4, 5), Instr::Divide], None)
    );
    assert_eq!(compiled("-12.5e-3"), (vec![number(1, 8), Instr::Negate], None));
    assert_eq!(compiled("+7"), (vec![number(1, 2)], None));
    assert_eq!(compiled("-(-7)"), (vec![number(3, 4), Instr::Negate, Instr::Negate], None));
    assert_eq!(compiled(""), (vec![], None));
}

#[test]
fn code_ends_at_the_fault() {
    assert_eq!(compiled("1+"), (vec![], Some(EvalError::IncompleteExpression)));
    assert_eq!(
        compiled("1+2)"),
        (vec![number(0, 1), number(2, 3), Instr::Add], Some(EvalError::UnexpectedCharacter))
    );
    assert_eq!(
        compiled("(1+2"),
        (vec![number(1, 2), number(3, 4), Instr::Add], Some(EvalError::UnbalancedParenthesis))
    );
    assert_eq!(compiled("2*x"), (vec![number(0, 1)], Some(EvalError::InvalidNumberFormat)));
    assert_eq!(compiled("2*3.x"), (vec![number(0, 1)], Some(EvalError::InvalidNumberFormat)));
    assert_eq!(compiled("1/0"), (vec![number(0, 1), number(2, 3), Instr::Divide], None));
}

#[test]
fn the_parser_reads_rule_by_rule() {
    let source = chars("12*3+4");
    let mut parser = ExpressionParser::new(&source);
    assert_eq!(parser.current_char(), '1');
    assert_eq!(parser.parse_number(), Ok(()));
    assert_eq!(parser.current_char(), '*');
    assert_eq!(parser.into_code(), vec![number(0, 2)]);

    let mut parser = ExpressionParser::new(&source);
    assert_eq!(parser.parse_factor(), Ok(()));
    assert_eq!(parser.current_char(), '*');

    let mut parser = ExpressionParser::new(&source);
    assert_eq!(parser.parse_term(), Ok(()));
    assert_eq!(parser.current_char(), '+');
    assert_eq!(parser.into_code(), vec![number(0, 2), number(3, 4), Instr::Multiply]);

    let mut parser = ExpressionParser::new(&source);
    assert_eq!(parser.parse_expression(), Ok(()));
    assert_eq!(parser.current_char(), '\0');

    let mut parser = ExpressionParser::new(&source);
    assert_eq!(parser.parse(), Ok(()));
    assert_eq!(
        parser.into_code(),
        vec![number(0, 2), number(3, 4), Instr::Multiply, number(5, 6), Instr::Add]
    );
}

#[test]
fn the_parser_runs_off_the_end_only_where_an_operand_is_missing() {
    for text in ["", "1+", "2*", "(", "-", "1-(", "+"] {
        let source = chars(text);
        let mut parser = ExpressionParser::new(&source);
        assert_eq!(parser.parse(), Err(EvalError::UnexpectedEndOfExpression), "{text}");
    }
    let source = chars("1)");
    let mut parser = ExpressionParser::new(&source);
    assert_eq!(parser.parse_expression(), Ok(()));
    assert_eq!(parser.current_char(), ')');
    let mut parser = ExpressionParser::new(&source);
    assert_eq!(parser.parse(), Err(EvalError::UnexpectedCharacter));
}

#[test]
fn every_error_has_its_words() {
    assert_eq!(EvalError::IncompleteExpression.message(), "Incomplete expression");
    assert_eq!(EvalError::DivisionByZero.message(), "Division by zero");
    assert_eq!(EvalError::InvalidNumberFormat.message(), "Invalid number format");
    assert_eq!(EvalError::UnexpectedCharacter.message(), "Unexpected character");
    assert_eq!(EvalError::UnbalancedParenthesis.message(), "Missing closing parenthesis");
    assert_eq!(EvalError::UnexpectedEndOfExpression.message(), "Unexpected end of expression");
}

#[test]
fn digits_and_blanks_are_those_of_ascii() {
    for code in 0..=0x10ffffu32 {
        if let Some(c) = char::from_u32(code) {
            assert_eq!(is_digit(c), c.is_ascii_digit(), "U+{code:04X}");
            assert_eq!(is_blank(c), c.is_ascii_whitespace(), "U+{code:04X}");
            let expected = match c {
                '×' => '*',
                '÷' => '/',
                other => other,
            };
            assert_eq!(canonical(c), expected, "U+{code:04X}");
        }
    }
}

#[test]
fn a_number_may_start_with_a_minus_sign() {
    let source = chars("-5");
    let mut parser = ExpressionParser::new(&source);
    assert_eq!(parser.parse_number(), Ok(()));
    assert_eq!(parser.current_char(), '\0');
    assert_eq!(parser.into_code(), vec![number(1, 2), Instr::Negate]);

    let source = chars("-12.5e-3+4");
    let mut parser = ExpressionParser::new(&source);
    assert_eq!(parser.parse_number(), Ok(()));
    assert_eq!(parser.current_char(), '+');
    assert_eq!(parser.into_code(), vec![number(1, 8), Instr::Negate]);

    let source = chars("7-");
    let mut parser = ExpressionParser::new(&source);
    assert_eq!(parser.parse_number(), Ok(()));
    assert_eq!(parser.current_char(), '-');
    assert_eq!(parser.into_code(), vec![number(0, 1)]);
}

#[test]
fn a_sign_without_a_literal_is_no_number() {
    for text in ["-", "--5", "-x", "-.5", "+5", "-(5)"] {
        let source = chars(text);
        let mut parser = ExpressionParser::new(&source);
        assert_eq!(parser.parse_number(), Err(EvalError::InvalidNumberFormat), "{text}");
        assert_eq!(parser.into_code(), vec![], "{text}");
    }
}
