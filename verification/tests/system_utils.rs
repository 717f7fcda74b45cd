use calculator::system_utils::{get_theme, is_white_space, Probe};

#[test]
fn the_registry_value_zero_means_dark() {
    assert_eq!(get_theme("Windows", &Probe::Registry(0)), "dark");
    assert_eq!(get_theme("Windows", &Probe::Registry(1)), "light");
    assert_eq!(get_theme("Windows", &Probe::Registry(7)), "light");
    assert_eq!(get_theme("Windows", &Probe::Failed), "Unknown");
    assert_eq!(get_theme("Windows", &Probe::Output("dark".to_string())), "Unknown");
}

#[test]
fn the_interface_style_of_macos_is_read_without_case_and_blanks() {
    let output = |text: &str| Probe::Output(text.to_string());
    assert_eq!(get_theme("macOS", &output("Dark\n")), "dark");
    assert_eq!(get_theme("macOS", &output("  dARK \t")), "dark");
    assert_eq!(get_theme("macOS", &output("\u{a0}DARK\u{3000}")), "dark");
    assert_eq!(get_theme("macOS", &output("")), "light");
    assert_eq!(get_theme("macOS", &output(" \n")), "light");
    assert_eq!(get_theme("macOS", &output("Light\n")), "Unknown");
    assert_eq!(get_theme("macOS", &output("Darker")), "Unknown");
    assert_eq!(get_theme("macOS", &output("Dar k")), "Unknown");
    assert_eq!(get_theme("macOS", &Probe::Failed), "Unknown");
    assert_eq!(get_theme("macOS", &Probe::Registry(0)), "Unknown");
}

#[test]
fn the_theme_name_of_gnome_is_searched_for_dark() {
    let output = |text: &str| Probe::Output(text.to_string());
    assert_eq!(get_theme("Linux", &output("'Adwaita-dark'\n")), "dark");
    assert_eq!(get_theme("Linux", &output("'Yaru-DARK'\n")), "dark");
    assert_eq!(get_theme("Linux", &output("Dark")), "dark");
    assert_eq!(get_theme("Linux", &output("'Adwaita'\n")), "light");
    assert_eq!(get_theme("Linux", &output("dar")), "light");
    assert_eq!(get_theme("Linux", &output("\n")), "light");
    assert_eq!(get_theme("Linux", &output("")), "Unknown");
    assert_eq!(get_theme("Linux", &Probe::Failed), "Unknown");
}

#[test]
fn other_systems_have_no_known_theme() {
    assert_eq!(get_theme("Android", &Probe::Registry(0)), "Unknown");
    assert_eq!(get_theme("iOS", &Probe::Output("Dark".to_string())), "Unknown");
    assert_eq!(get_theme("linux", &Probe::Output("dark".to_string())), "Unknown");
    assert_eq!(get_theme("", &Probe::Failed), "Unknown");
}

#[test]
fn white_space_is_what_trimming_takes_away() {
    for code in 0..=0x10ffffu32 {
        if let Some(c) = char::from_u32(code) {
            assert_eq!(is_white_space(c), c.is_whitespace(), "U+{code:04X}");
        }
    }
}

#[test]
fn the_answer_of_macos_is_trimmed_as_strings_are() {
    for text in ["Dark", " Dark", "Dark ", "\u{2003}dark\u{85}", "\u{b}dArK\u{c}", "\u{200b}Dark"] {
        let expected = if text.trim().eq_ignore_ascii_case("Dark") {
            "dark"
        } else if text.trim().is_empty() {
            "light"
        } else {
            "Unknown"
        };
        assert_eq!(get_theme("macOS", &Probe::Output(text.to_string())), expected, "{text:?}");
    }
}
