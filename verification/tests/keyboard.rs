use calculator::arithmetic::{Reply, Request};
use calculator::calculator::Calculator;
use calculator::keyboard_handler::{
    handle_keyboard_input, key_name, simulate_calculator_button_press, KeyboardHandler,
};

fn perform(request: Request) -> Reply {
    let double = f64::from_bits;
    match request {
        Request::Literal(text) => Reply::Number(text.parse::<f64>().unwrap().to_bits()),
        Request::Add(a, b) => Reply::Number((double(a) + double(b)).to_bits()),
        Request::Subtract(a, b) => Reply::Number((double(a) - double(b)).to_bits()),
        Request::Multiply(a, b) => Reply::Number((double(a) * double(b)).to_bits()),
        Request::Divide(a, b) => Reply::Number((double(a) / double(b)).to_bits()),
        Request::Digits(bits) => Reply::Digits {
            fixed: format!("{:.8}", double(bits)),
            scientific: format!("{:.6e}", double(bits)),
        },
    }
}

fn type_keys(keys: &[&str]) -> Calculator {
    let handler = KeyboardHandler::new();
    let mut calculator = Calculator::new();
    for key in keys {
        let mut request = handle_keyboard_input(key, &handler, &mut calculator);
        while let Some(r) = request {
            request = calculator.supply(perform(r));
        }
    }
    calculator
}

#[test]
fn the_default_table_maps_every_key_of_the_calculator() {
    let handler = KeyboardHandler::new();
    for digit in ["0", "1", "2", "3", "4", "5", "6", "7", "8", "9"] {
        assert_eq!(handler.handle_key(digit), Some(("NUMBER", digit)));
    }
    assert_eq!(handler.handle_key("+"), Some(("OPERATOR", "plus")));
    assert_eq!(handler.handle_key("-"), Some(("OPERATOR", "minus")));
    assert_eq!(handler.handle_key("*"), Some(("OPERATOR", "multiply")));
    assert_eq!(handler.handle_key("/"), Some(("OPERATOR", "divide")));
    assert_eq!(handler.handle_key("="), Some(("EQUALS", "equals")));
    assert_eq!(handler.handle_key("Enter"), Some(("EQUALS", "equals")));
    assert_eq!(handler.handle_key("."), Some(("DECIMAL", "decimal")));
    assert_eq!(handler.handle_key(","), Some(("DECIMAL", "decimal")));
    assert_eq!(handler.handle_key("("), Some(("PARENTHESIS", "open-paren")));
    assert_eq!(handler.handle_key(")"), Some(("PARENTHESIS", "close-paren")));
    assert_eq!(handler.handle_key("Backspace"), Some(("FUNCTION", "backspace")));
    assert_eq!(handler.handle_key("Delete"), Some(("CLEAR", "clear")));
    assert_eq!(handler.handle_key("c"), Some(("CLEAR", "clear")));
    assert_eq!(handler.handle_key("C"), Some(("CLEAR", "clear")));
    assert_eq!(handler.handle_key("Escape"), Some(("FUNCTION", "settings")));
}

#[test]
fn keys_without_a_button_are_dropped() {
    let handler = KeyboardHandler::new();
    for key in ["a", "F1", "", "enter", "00", " "] {
        assert_eq!(handler.handle_key(key), None, "{key:?}");
    }
}

#[test]
fn the_supported_keys_are_those_of_the_table() {
    let handler = KeyboardHandler::new();
    let mut keys = handler.get_supported_keys();
    keys.sort();
    let mut expected: Vec<String> = [
        "0", "1", "2", "3", "4", "5", "6", "7", "8", "9", "+", "-", "*", "/", "=", "Enter", ".",
        ",", "(", ")", "Backspace", "Delete", "c", "C", "Escape",
    ]
    .iter()
    .map(|k| k.to_string())
    .collect();
    expected.sort();
    assert_eq!(keys, expected);
}

#[test]
fn a_mapping_can_be_added_and_replaced() {
    let mut handler = KeyboardHandler::new();
    handler.add_key_mapping("x".to_string(), "OPERATOR", "multiply");
    assert_eq!(handler.handle_key("x"), Some(("OPERATOR", "multiply")));
    assert_eq!(handler.get_supported_keys().len(), 26);
    handler.add_key_mapping("c".to_string(), "FUNCTION", "backspace");
    assert_eq!(handler.handle_key("c"), Some(("FUNCTION", "backspace")));
    assert_eq!(handler.handle_key("C"), Some(("CLEAR", "clear")));
    assert_eq!(handler.get_supported_keys().len(), 26);
}

#[test]
fn keys_reach_the_calculator() {
    let calculator = type_keys(&["(", "2", "+", "3", ")", "*", "4", "Enter"]);
    assert_eq!(calculator.get_expression(), "(2+3)×4");
    assert_eq!(calculator.get_result(), "20");
    let calculator = type_keys(&["7", ",", "5", "/", "2", "="]);
    assert_eq!(calculator.get_result(), "3.75");
    let calculator = type_keys(&["7", "q", "Escape", "8", "Backspace"]);
    assert_eq!(calculator.get_expression(), "7");
    let calculator = type_keys(&["7", "+", "c"]);
    assert_eq!(calculator.get_expression(), "");
    assert_eq!(calculator.get_result(), "0");
}

#[test]
fn a_simulated_press_is_only_noted() {
    assert_eq!(
        simulate_calculator_button_press("NUMBER", "7"),
        "Simulating calculator button press: Type: NUMBER, ID: 7"
    );
}

#[test]
fn control_characters_have_the_names_of_their_keys() {
    assert_eq!(key_name("\n"), "Enter");
    assert_eq!(key_name("\r"), "Enter");
    assert_eq!(key_name("\u{8}"), "Backspace");
    assert_eq!(key_name("\u{7f}"), "Delete");
    assert_eq!(key_name("\u{1b}"), "Escape");
    for text in ["7", "+", "c", "", "\n\n", "Enter", "\t", " "] {
        assert_eq!(key_name(text), text);
    }
    let handler = KeyboardHandler::new();
    assert_eq!(handler.handle_key(key_name("\r")), Some(("EQUALS", "equals")));
    assert_eq!(handler.handle_key(key_name("\u{8}")), Some(("FUNCTION", "backspace")));
    assert_eq!(handler.handle_key(key_name("\u{7f}")), Some(("CLEAR", "clear")));
    assert_eq!(handler.handle_key(key_name("\u{1b}")), Some(("FUNCTION", "settings")));
}
