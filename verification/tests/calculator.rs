use calculator::arithmetic::{Reply, Request};
use calculator::calculator::{handle_calculator_input, Calculator};

fn perform(request: Request) -> Reply {
    let double = f64::from_bits;
    match request {
        Request::Literal(text) => Reply::Number(text.parse::<f64>().unwrap().to_bits()),
        Request::Add(a, b) => Reply::Number((double(a) + double(b)).to_bits()),
        Request::Subtract(a, b) => Reply::Number((double(a) - double(b)).to_bits()),
        Request::Multiply(a, b) => Reply::Number((double(a) * double(b)).to_bits()),
        Request::Divide(a, b) => Reply::Number((double(a) / double(b)).to_bits()),
        Request::Digits(bits) => Reply::Digits {
            fixed: format!("{:.8}", double(bits)),
            scientific: format!("{:.6e}", double(bits)),
        },
    }
}

fn settle(calculator: &mut Calculator, mut request: Option<Request>) {
    while let Some(r) = request {
        request = calculator.supply(perform(r));
    }
}

fn apply(calculator: &mut Calculator, id: &str) {
    let request = handle_calculator_input(id, calculator);
    settle(calculator, request);
}

fn press(ids: &[&str]) -> Calculator {
    let mut calculator = Calculator::new();
    for id in ids {
        apply(&mut calculator, id);
    }
    calculator
}

#[test]
fn a_new_calculator_shows_zero() {
    let calculator = Calculator::new();
    assert_eq!(calculator.get_expression(), "");
    assert_eq!(calculator.get_result(), "0");
    assert_eq!(calculator.open_parens(), 0);
    assert!(!calculator.pending_clear());
    assert_eq!(calculator.last_result(), 0);
    assert_eq!(calculator.request(), None);
}

#[test]
fn one_plus_two_equals_three() {
    let calculator = press(&["1", "plus", "2", "equals"]);
    assert_eq!(calculator.get_result(), "3");
    assert_eq!(calculator.get_expression(), "1+2");
    assert!(calculator.pending_clear());
    assert_eq!(f64::from_bits(calculator.last_result()), 3.0);
}

#[test]
fn division_by_zero_shows_an_error_and_keeps_the_expression() {
    let calculator = press(&["5", "divide", "0", "equals"]);
    assert_eq!(calculator.get_result(), "Error: Division by zero");
    assert_eq!(calculator.get_expression(), "5÷0");
    assert!(calculator.pending_clear());
    assert_eq!(calculator.last_result(), 0);
}

#[test]
fn parentheses_come_before_multiplication() {
    let calculator = press(&[
        "open-paren",
        "2",
        "plus",
        "3",
        "close-paren",
        "multiply",
        "4",
        "equals",
    ]);
    assert_eq!(calculator.get_expression(), "(2+3)×4");
    assert_eq!(calculator.get_result(), "20");
}

#[test]
fn a_leading_minus_is_a_sign() {
    let calculator = press(&["minus", "4", "equals"]);
    assert_eq!(calculator.get_expression(), "-4");
    assert_eq!(calculator.get_result(), "-4");
}

#[test]
fn a_second_decimal_point_is_rejected() {
    let calculator = press(&["1", "decimal", "decimal"]);
    assert_eq!(calculator.get_expression(), "1.");
    let calculator = press(&["1", "decimal", "5", "decimal"]);
    assert_eq!(calculator.get_expression(), "1.5");
    let calculator = press(&["1", "decimal", "5", "plus", "2", "decimal"]);
    assert_eq!(calculator.get_expression(), "1.5+2.");
}

#[test]
fn an_operator_after_a_result_goes_on_from_it() {
    let mut calculator = press(&["3", "plus", "4", "equals"]);
    assert_eq!(calculator.get_result(), "7");
    apply(&mut calculator, "plus");
    assert_eq!(calculator.get_expression(), "7+");
    assert!(!calculator.pending_clear());
    apply(&mut calculator, "3");
    assert_eq!(calculator.get_expression(), "7+3");
    apply(&mut calculator, "equals");
    assert_eq!(calculator.get_result(), "10");
}

#[test]
fn a_digit_after_a_result_starts_afresh() {
    let mut calculator = press(&["3", "plus", "4", "equals"]);
    apply(&mut calculator, "9");
    assert_eq!(calculator.get_expression(), "9");
    assert_eq!(calculator.get_result(), "9");
    assert!(!calculator.pending_clear());
}

#[test]
fn the_preview_follows_every_edit() {
    let mut calculator = Calculator::new();
    apply(&mut calculator, "1");
    assert_eq!(calculator.get_result(), "1");
    apply(&mut calculator, "2");
    assert_eq!(calculator.get_result(), "12");
    apply(&mut calculator, "plus");
    assert_eq!(calculator.get_result(), "0");
    apply(&mut calculator, "3");
    assert_eq!(calculator.get_result(), "15");
    apply(&mut calculator, "divide");
    assert_eq!(calculator.get_result(), "0");
    apply(&mut calculator, "0");
    assert_eq!(calculator.get_result(), "0");
    apply(&mut calculator, "backspace");
    apply(&mut calculator, "4");
    assert_eq!(calculator.get_expression(), "12+3÷4");
    assert_eq!(calculator.get_result(), "12.75");
    assert!(!calculator.pending_clear());
}

#[test]
fn an_operator_replaces_the_operator_before_it() {
    let calculator = press(&["5", "plus", "multiply"]);
    assert_eq!(calculator.get_expression(), "5×");
    let calculator = press(&["5", "divide", "minus", "plus"]);
    assert_eq!(calculator.get_expression(), "5+");
}

#[test]
fn only_minus_may_stand_first() {
    assert_eq!(press(&["plus"]).get_expression(), "");
    assert_eq!(press(&["multiply"]).get_expression(), "");
    assert_eq!(press(&["divide"]).get_expression(), "");
    assert_eq!(press(&["minus"]).get_expression(), "-");
    assert_eq!(press(&["minus", "plus"]).get_expression(), "-");
    assert_eq!(press(&["minus", "minus"]).get_expression(), "-");
}

#[test]
fn a_decimal_point_gets_a_leading_zero_where_an_operand_starts() {
    assert_eq!(press(&["decimal"]).get_expression(), "0.");
    assert_eq!(press(&["2", "plus", "decimal"]).get_expression(), "2+0.");
    assert_eq!(press(&["open-paren", "decimal"]).get_expression(), "(0.");
    assert_eq!(press(&["2", "decimal"]).get_expression(), "2.");
    let calculator = press(&["decimal", "5", "plus", "decimal", "2", "5", "equals"]);
    assert_eq!(calculator.get_result(), "0.75");
}

#[test]
fn parentheses_open_and_close_only_where_they_may() {
    assert_eq!(press(&["5", "open-paren"]).get_expression(), "5");
    assert_eq!(press(&["close-paren"]).get_expression(), "");
    assert_eq!(press(&["open-paren", "close-paren"]).get_expression(), "(");
    assert_eq!(press(&["open-paren", "5", "plus", "close-paren"]).get_expression(), "(5+");
    let calculator = press(&["open-paren", "open-paren", "5", "close-paren"]);
    assert_eq!(calculator.get_expression(), "((5)");
    assert_eq!(calculator.open_parens(), 1);
    let calculator = press(&["open-paren", "5", "close-paren", "close-paren"]);
    assert_eq!(calculator.get_expression(), "(5)");
    assert_eq!(calculator.open_parens(), 0);
}

#[test]
fn the_count_of_open_parentheses_follows_the_expression() {
    let mut calculator = Calculator::new();
    let keys = [
        "open-paren", "open-paren", "1", "plus", "open-paren", "2", "close-paren", "backspace",
        "backspace", "backspace", "3", "close-paren", "multiply", "open-paren", "backspace",
        "4", "close-paren", "close-paren", "equals", "plus", "open-paren", "7", "equals", "5",
        "open-paren", "close-paren",
    ];
    for key in keys {
        apply(&mut calculator, key);
        let expression = calculator.get_expression();
        let open = expression.chars().filter(|c| *c == '(').count();
        let closed = expression.chars().filter(|c| *c == ')').count();
        assert_eq!(calculator.open_parens() + closed, open, "after {key}: {expression}");
    }
}

#[test]
fn backspace_takes_one_character_away() {
    let mut calculator = press(&["1", "2", "multiply", "open-paren"]);
    assert_eq!(calculator.open_parens(), 1);
    apply(&mut calculator, "backspace");
    assert_eq!(calculator.get_expression(), "12×");
    assert_eq!(calculator.open_parens(), 0);
    apply(&mut calculator, "backspace");
    assert_eq!(calculator.get_expression(), "12");
    assert_eq!(calculator.get_result(), "12");
    apply(&mut calculator, "backspace");
    apply(&mut calculator, "backspace");
    assert_eq!(calculator.get_expression(), "");
    assert_eq!(calculator.get_result(), "0");
    apply(&mut calculator, "backspace");
    assert_eq!(calculator.get_expression(), "");
}

#[test]
fn clear_twice_is_clear_once() {
    let mut calculator = press(&["open-paren", "1", "plus", "2", "equals"]);
    apply(&mut calculator, "clear");
    let once = (
        calculator.get_expression(),
        calculator.get_result(),
        calculator.open_parens(),
        calculator.pending_clear(),
        calculator.last_result(),
    );
    apply(&mut calculator, "clear");
    let twice = (
        calculator.get_expression(),
        calculator.get_result(),
        calculator.open_parens(),
        calculator.pending_clear(),
        calculator.last_result(),
    );
    assert_eq!(once, twice);
    assert_eq!(once, (String::new(), "0".to_string(), 0, false, 0));
}

#[test]
fn equals_on_an_empty_expression_does_nothing() {
    let calculator = press(&["equals"]);
    assert_eq!(calculator.get_result(), "0");
    assert!(!calculator.pending_clear());
}

#[test]
fn unknown_keys_are_ignored() {
    let calculator = press(&["1", "settings", "sqrt", "", "12", "x", "Plus"]);
    assert_eq!(calculator.get_expression(), "1");
    assert_eq!(calculator.get_result(), "1");
}

#[test]
fn errors_are_shown_on_equals_only() {
    let mut calculator = press(&["open-paren", "1", "plus", "2"]);
    assert_eq!(calculator.get_result(), "0");
    apply(&mut calculator, "equals");
    assert_eq!(calculator.get_result(), "Error: Missing closing parenthesis");
    let calculator = press(&["1", "plus", "equals"]);
    assert_eq!(calculator.get_result(), "Error: Incomplete expression");
    let calculator = press(&["open-paren", "1", "close-paren", "2", "equals"]);
    assert_eq!(calculator.get_result(), "Error: Unexpected character");
    let calculator = press(&["1", "decimal", "plus", "2", "equals"]);
    assert_eq!(calculator.get_result(), "Error: Invalid number format");
}

#[test]
fn a_value_that_overflows_is_an_error() {
    let mut keys = vec!["9"];
    for _ in 0..400 {
        keys.push("9");
    }
    let mut calculator = press(&keys);
    assert_eq!(calculator.get_result(), "0");
    apply(&mut calculator, "equals");
    assert_eq!(calculator.get_result(), "Error");
    assert!(calculator.pending_clear());
    assert_eq!(calculator.last_result(), 0);
}

#[test]
fn a_scientific_result_can_be_gone_on_from() {
    let mut calculator = press(&["1", "divide", "8", "0", "0", "0", "0", "0", "0", "equals"]);
    assert_eq!(calculator.get_result(), "1.25e-7");
    apply(&mut calculator, "multiply");
    assert_eq!(calculator.get_expression(), "1.25e-7×");
    apply(&mut calculator, "8");
    apply(&mut calculator, "equals");
    assert_eq!(calculator.get_result(), "1e-6");
}

#[test]
fn an_edit_drops_the_arithmetic_that_was_asked_for() {
    let mut calculator = Calculator::new();
    let first = calculator.add_digit("1");
    assert_eq!(first, Some(Request::Literal("1".to_string())));
    let second = calculator.add_digit("2");
    assert_eq!(second, Some(Request::Literal("12".to_string())));
    assert_eq!(calculator.get_result(), "0");
    let third = calculator.supply(Reply::Number(12.0f64.to_bits()));
    assert_eq!(third, None);
    assert_eq!(calculator.get_result(), "12");
}

#[test]
fn a_reply_of_the_wrong_kind_is_ignored() {
    let mut calculator = Calculator::new();
    let asked = calculator.add_digit("7");
    let digits = Reply::Digits { fixed: "7.00000000".to_string(), scientific: "7.000000e0".to_string() };
    assert_eq!(calculator.supply(digits), asked);
    assert_eq!(calculator.get_result(), "0");
    assert_eq!(calculator.supply(Reply::Number(2.5f64.to_bits())), Some(Request::Digits(2.5f64.to_bits())));
    assert_eq!(calculator.supply(Reply::Number(0)), Some(Request::Digits(2.5f64.to_bits())));
    let digits = Reply::Digits { fixed: "2.50000000".to_string(), scientific: "2.500000e0".to_string() };
    assert_eq!(calculator.supply(digits), None);
    assert_eq!(calculator.get_result(), "2.5");
    assert_eq!(calculator.supply(Reply::Number(0)), None);
    assert_eq!(calculator.get_result(), "2.5");
}

#[test]
fn a_division_by_a_zero_literal_anywhere_is_an_error() {
    let cases: [&[&str]; 6] = [
        &["1", "plus", "5", "divide", "0"],
        &["open-paren", "2", "plus", "3", "close-paren", "divide", "0", "decimal", "0", "multiply", "4"],
        &["8", "divide", "0", "0"],
        &["7", "divide", "0", "decimal", "0", "0", "minus", "1"],
        &["0", "divide", "0"],
        &["9", "minus", "open-paren", "4", "divide", "0", "close-paren"],
    ];
    for keys in cases {
        let mut calculator = press(&["6", "multiply", "7", "equals", "clear"]);
        apply(&mut calculator, "2");
        apply(&mut calculator, "equals");
        let committed = calculator.last_result();
        assert_eq!(f64::from_bits(committed), 2.0);
        for key in keys {
            apply(&mut calculator, key);
        }
        let expression = calculator.get_expression();
        assert_eq!(calculator.get_result(), "0", "{expression}");
        apply(&mut calculator, "equals");
        assert_eq!(calculator.get_result(), "Error: Division by zero", "{expression}");
        assert_eq!(calculator.get_expression(), expression);
        assert_eq!(calculator.last_result(), committed, "{expression}");
        assert!(calculator.pending_clear());
    }
}
