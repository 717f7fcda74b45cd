use calculator::arithmetic::Request;
use calculator::error::EvalError;
use calculator::evaluation::{zero_literal, Evaluation};

fn perform(request: &Request) -> u64 {
    match request {
        Request::Literal(text) => text.parse::<f64>().unwrap().to_bits(),
        Request::Add(a, b) => (f64::from_bits(*a) + f64::from_bits(*b)).to_bits(),
        Request::Subtract(a, b) => (f64::from_bits(*a) - f64::from_bits(*b)).to_bits(),
        Request::Multiply(a, b) => (f64::from_bits(*a) * f64::from_bits(*b)).to_bits(),
        Request::Divide(a, b) => (f64::from_bits(*a) / f64::from_bits(*b)).to_bits(),
        Request::Digits(_) => unreachable!(),
    }
}

fn evaluate(expression: &str) -> Result<f64, EvalError> {
    let mut evaluation = Evaluation::start(expression);
    while let Some(request) = evaluation.request() {
        evaluation.supply(perform(&request));
    }
    evaluation.outcome().unwrap().map(f64::from_bits)
}

#[test]
fn precedence_and_parentheses() {
    assert_eq!(evaluate("1+2*3"), Ok(7.0));
    assert_eq!(evaluate("(1+2)*3"), Ok(9.0));
    assert_eq!(evaluate("2*(3+4)*5"), Ok(70.0));
    assert_eq!(evaluate("10-4-3"), Ok(3.0));
    assert_eq!(evaluate("16/4/2"), Ok(2.0));
}

#[test]
fn signs_bind_tighter_than_operators() {
    assert_eq!(evaluate("-4"), Ok(-4.0));
    assert_eq!(evaluate("2*-3"), Ok(-6.0));
    assert_eq!(evaluate("--3"), Ok(3.0));
    assert_eq!(evaluate("+5-+2"), Ok(3.0));
    assert_eq!(evaluate("-(1+2)"), Ok(-3.0));
    assert_eq!(evaluate("2--3"), Ok(5.0));
}

#[test]
fn glyphs_and_blanks_are_normalized() {
    assert_eq!(evaluate("6×7"), Ok(42.0));
    assert_eq!(evaluate("9÷2"), Ok(4.5));
    assert_eq!(evaluate(" 1 + 2 "), Ok(3.0));
    assert_eq!(evaluate("1 2"), Ok(12.0));
    assert_eq!(evaluate("\t3\n*\r4"), Ok(12.0));
}

#[test]
fn the_empty_expression_is_zero() {
    assert_eq!(evaluate(""), Ok(0.0));
    assert_eq!(evaluate("   "), Ok(0.0));
}

#[test]
fn numbers_may_have_decimals_and_exponents() {
    assert_eq!(evaluate("1.5"), Ok(1.5));
    assert_eq!(evaluate("2e3"), Ok(2000.0));
    assert_eq!(evaluate("2E3"), Ok(2000.0));
    assert_eq!(evaluate("1.25e-2"), Ok(0.0125));
    assert_eq!(evaluate("1e+2+1"), Ok(101.0));
    assert_eq!(evaluate("0.1+0.2"), Ok(0.1 + 0.2));
}

#[test]
fn malformed_numbers_are_rejected() {
    assert_eq!(evaluate(".5"), Err(EvalError::InvalidNumberFormat));
    assert_eq!(evaluate("1.+2"), Err(EvalError::InvalidNumberFormat));
    assert_eq!(evaluate("1e"), Err(EvalError::InvalidNumberFormat));
    assert_eq!(evaluate("1e+x"), Err(EvalError::InvalidNumberFormat));
    assert_eq!(evaluate("1e-"), Err(EvalError::IncompleteExpression));
    assert_eq!(evaluate("2*x"), Err(EvalError::InvalidNumberFormat));
    assert_eq!(evaluate("()"), Err(EvalError::InvalidNumberFormat));
    assert_eq!(evaluate("1+*2"), Err(EvalError::InvalidNumberFormat));
}

#[test]
fn an_open_end_is_incomplete() {
    for expression in ["1+", "1-", "1×", "1÷", "1*", "1/", "(", "1+(", "1.", "1+ "] {
        assert_eq!(evaluate(expression), Err(EvalError::IncompleteExpression), "{expression}");
    }
}

#[test]
fn every_error_has_its_input() {
    assert_eq!(evaluate("1/0"), Err(EvalError::DivisionByZero));
    assert_eq!(evaluate("1)"), Err(EvalError::UnexpectedCharacter));
    assert_eq!(evaluate("1 2 a"), Err(EvalError::UnexpectedCharacter));
    assert_eq!(evaluate("(1+2"), Err(EvalError::UnbalancedParenthesis));
    assert_eq!(evaluate("((1)"), Err(EvalError::UnbalancedParenthesis));
    assert_eq!(evaluate("(1+2))"), Err(EvalError::UnexpectedCharacter));
}

#[test]
fn division_by_zero_is_never_infinite() {
    for divisor in ["0", "0.0", "0e5", "0.000e-3", "-0", "(0)", "(1-1)", "(0*5)", "1e-999", "+0"] {
        let expression = format!("5/{divisor}");
        assert_eq!(evaluate(&expression), Err(EvalError::DivisionByZero), "{expression}");
    }
    assert_eq!(evaluate("0/0"), Err(EvalError::DivisionByZero));
    assert_eq!(evaluate("1/(2-2)+("), Err(EvalError::IncompleteExpression));
}

#[test]
fn the_first_error_in_reading_order_wins() {
    assert_eq!(evaluate("(1/0"), Err(EvalError::DivisionByZero));
    assert_eq!(evaluate("1/0)"), Err(EvalError::DivisionByZero));
    assert_eq!(evaluate("(1+2/0*x"), Err(EvalError::DivisionByZero));
    assert_eq!(evaluate("x/0"), Err(EvalError::InvalidNumberFormat));
}

#[test]
fn a_literal_that_is_textually_zero_is_not_asked_for() {
    let mut evaluation = Evaluation::start("5/0.00");
    assert_eq!(evaluation.request(), Some(Request::Literal("5".to_string())));
    evaluation.supply(5.0f64.to_bits());
    assert_eq!(evaluation.request(), None);
    assert_eq!(evaluation.outcome(), Some(Err(EvalError::DivisionByZero)));
    let evaluation = Evaluation::start("-0e7");
    assert_eq!(evaluation.request(), None);
    assert_eq!(evaluation.outcome(), Some(Ok((-0.0f64).to_bits())));
}

#[test]
fn requests_come_in_reading_order() {
    let mut evaluation = Evaluation::start("1+2×3");
    let mut asked = Vec::new();
    while let Some(request) = evaluation.request() {
        evaluation.supply(perform(&request));
        asked.push(request);
    }
    let bits = |x: f64| x.to_bits();
    assert_eq!(
        asked,
        vec![
            Request::Literal("1".to_string()),
            Request::Literal("2".to_string()),
            Request::Literal("3".to_string()),
            Request::Multiply(bits(2.0), bits(3.0)),
            Request::Add(bits(1.0), bits(6.0)),
        ]
    );
    assert_eq!(evaluation.outcome(), Some(Ok(bits(7.0))));
    evaluation.supply(0);
    assert_eq!(evaluation.outcome(), Some(Ok(bits(7.0))));
}

#[test]
fn evaluation_is_repeatable() {
    for expression in ["1+2*3", "(1.5e3-2)/7", "1/0", "2*(3", "0.1+0.2"] {
        assert_eq!(
            evaluate(expression).map(f64::to_bits),
            evaluate(expression).map(f64::to_bits)
        );
    }
}

#[test]
fn a_literal_is_zero_if_all_digits_before_its_exponent_are() {
    for text in ["0", "000", "0.0", "0.000", "0e5", "0.0e-7", "00.00E+12", ""] {
        assert!(zero_literal(&text.chars().collect::<Vec<char>>()), "{text}");
    }
    for text in ["1", "0.1", "10", "0.01e0", "1e0", "0x", "9.0"] {
        assert!(!zero_literal(&text.chars().collect::<Vec<char>>()), "{text}");
    }
}
