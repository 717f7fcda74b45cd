use calculator::text::{same_text, to_chars, to_string};

#[test]
fn strings_and_characters_go_back_and_forth() {
    for text in ["", "a", "(2+3)×4", "÷÷", "1.5e-7", "日本語"] {
        let chars: Vec<char> = text.chars().collect();
        assert_eq!(to_chars(text), chars);
        assert_eq!(to_string(&chars), text);
    }
}

#[test]
fn texts_are_the_same_character_by_character() {
    assert!(same_text("", ""));
    assert!(same_text("plus", "plus"));
    assert!(same_text("×", "×"));
    assert!(!same_text("plus", "Plus"));
    assert!(!same_text("plus", "plu"));
    assert!(!same_text("", " "));
    assert!(!same_text("×", "÷"));
}
