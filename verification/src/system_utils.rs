//! The theme of the system, from what the system says about it.
//!
//! Asking the system is the caller's part: the registry on Windows, the
//! `defaults` command on macOS, `gsettings` on Linux. What the answer
//! means is decided here.

use vstd::prelude::*;
use crate::text::{same_text, to_chars};

verus! {

/// What the system answered when it was asked for its theme.
pub enum Probe {
    /// The registry value `AppsUseLightTheme`.
    Registry(u32),
    /// What the command printed that was run.
    Output(String),
    /// No answer: the value or the command is missing, or the system is
    /// not the one that was asked about.
    Failed,
}

/// The lowercase equivalent of a text, as `str::to_lowercase` gives it.
pub uninterp spec fn lowercase_of(text: Seq<char>) -> Seq<char>;

/// The lowercase equivalent of `text`. Trusted: `str::to_lowercase`,
/// whose result depends on the text alone.
#[verifier::external_body]
fn to_lowercase(text: &str) -> (lower: String)
    ensures
        lower@ == lowercase_of(text@),
{
    text.to_lowercase()
}

/// The characters that have the property `White_Space`, which trimming
/// takes away.
pub open spec fn spec_is_white_space(c: char) -> bool {
    ('\u{9}' <= c && c <= '\u{d}') || c == ' ' || c == '\u{85}' || c == '\u{a0}' || c
        == '\u{1680}' || ('\u{2000}' <= c && c <= '\u{200a}') || c == '\u{2028}' || c
        == '\u{2029}' || c == '\u{202f}' || c == '\u{205f}' || c == '\u{3000}'
}

#[verifier::when_used_as_spec(spec_is_white_space)]
pub fn is_white_space(c: char) -> (b: bool)
    ensures
        b == spec_is_white_space(c),
{
    ('\u{9}' <= c && c <= '\u{d}') || c == ' ' || c == '\u{85}' || c == '\u{a0}' || c
        == '\u{1680}' || ('\u{2000}' <= c && c <= '\u{200a}') || c == '\u{2028}' || c
        == '\u{2029}' || c == '\u{202f}' || c == '\u{205f}' || c == '\u{3000}'
}

/// Where the text starts once the white space in front is taken away.
pub open spec fn trim_start(t: Seq<char>, from: int) -> int
    decreases t.len() - from,
{
    if 0 <= from < t.len() && spec_is_white_space(t[from]) {
        trim_start(t, from + 1)
    } else {
        from
    }
}

/// Where the text ends once the white space at its end is taken away,
/// down to `floor` at most.
pub open spec fn trim_end(t: Seq<char>, floor: int, to: int) -> int
    decreases to,
{
    if 0 <= floor < to <= t.len() && spec_is_white_space(t[to - 1]) {
        trim_end(t, floor, to - 1)
    } else {
        to
    }
}

/// The text without the white space in front and at its end.
pub open spec fn trimmed_text(t: Seq<char>) -> Seq<char> {
    let start = trim_start(t, 0);
    t.subrange(start, trim_end(t, start, t.len() as int))
}

/// Whether `t` is the word `dark`, in capitals or small letters.
pub open spec fn is_dark_word(t: Seq<char>) -> bool {
    &&& t.len() == 4
    &&& t[0] == 'd' || t[0] == 'D'
    &&& t[1] == 'a' || t[1] == 'A'
    &&& t[2] == 'r' || t[2] == 'R'
    &&& t[3] == 'k' || t[3] == 'K'
}

/// Whether `t` holds the word `dark` at `i`.
pub open spec fn dark_at(t: Seq<char>, i: int) -> bool {
    0 <= i && i + 4 <= t.len() && t[i] == 'd' && t[i + 1] == 'a' && t[i + 2] == 'r' && t[i + 3]
        == 'k'
}

/// Whether `t` holds the word `dark` somewhere.
pub open spec fn mentions_dark(t: Seq<char>) -> bool {
    exists|i: int| dark_at(t, i)
}

/// The theme that the answer of macOS means: dark for the word `dark`,
/// whatever its case and the white space around it; light for no word at
/// all; unknown for any other.
pub open spec fn theme_of_defaults(output: Seq<char>) -> Seq<char> {
    let style = trimmed_text(output);
    if is_dark_word(style) {
        "dark"@
    } else if style.len() == 0 {
        "light"@
    } else {
        "Unknown"@
    }
}

/// The theme that the answer of `gsettings` means: dark for a name that,
/// in small letters, holds the word `dark`; light for any other name;
/// unknown for none.
pub open spec fn theme_of_gsettings(output: Seq<char>) -> Seq<char> {
    let name = lowercase_of(output);
    if mentions_dark(name) {
        "dark"@
    } else if name.len() > 0 {
        "light"@
    } else {
        "Unknown"@
    }
}

/// The theme of the system `os`, given what it answered. On Windows the
/// registry value zero means dark, any other light. An answer of the
/// wrong kind, no answer, or a system other than `Windows`, `macOS` and
/// `Linux`: unknown.
pub open spec fn theme_of(os: Seq<char>, probe: Probe) -> Seq<char> {
    if os == "Windows"@ {
        match probe {
            Probe::Registry(value) => if value == 0 {
                "dark"@
            } else {
                "light"@
            },
            _ => "Unknown"@,
        }
    } else if os == "macOS"@ {
        match probe {
            Probe::Output(output) => theme_of_defaults(output@),
            _ => "Unknown"@,
        }
    } else if os == "Linux"@ {
        match probe {
            Probe::Output(output) => theme_of_gsettings(output@),
            _ => "Unknown"@,
        }
    } else {
        "Unknown"@
    }
}

/// Computes [`theme_of_defaults`].
fn defaults_theme(output: &str) -> (theme: &'static str)
    ensures
        theme@ == theme_of_defaults(output@),
{
    let t = to_chars(output);
    let mut start: usize = 0;
    while start < t.len() && is_white_space(t[start])
        invariant
            start <= t.len(),
            trim_start(t@, start as int) == trim_start(t@, 0),
        decreases t.len() - start,
    {
        start += 1;
    }
    let mut end: usize = t.len();
    while end > start && is_white_space(t[end - 1])
        invariant
            start <= end <= t.len(),
            trim_end(t@, start as int, end as int) == trim_end(t@, start as int, t.len() as int),
        decreases end,
    {
        end -= 1;
    }
    let ghost style = t@.subrange(start as int, end as int);
    assert(style == trimmed_text(output@));
    if end - start == 4 && (t[start] == 'd' || t[start] == 'D') && (t[start + 1] == 'a' || t[start
        + 1] == 'A') && (t[start + 2] == 'r' || t[start + 2] == 'R') && (t[start + 3] == 'k'
        || t[start + 3] == 'K') {
        "dark"
    } else if end == start {
        "light"
    } else {
        "Unknown"
    }
}

/// Computes [`theme_of_gsettings`].
fn gsettings_theme(output: &str) -> (theme: &'static str)
    ensures
        theme@ == theme_of_gsettings(output@),
{
    let lower = to_lowercase(output);
    let t = to_chars(lower.as_str());
    let mut i: usize = 0;
    while t.len() >= 4 && i <= t.len() - 4
        invariant
            t@ == lowercase_of(output@),
            forall|j: int| 0 <= j < i ==> !dark_at(t@, j),
        decreases t.len() - i,
    {
        if t[i] == 'd' && t[i + 1] == 'a' && t[i + 2] == 'r' && t[i + 3] == 'k' {
            assert(dark_at(t@, i as int));
            return "dark";
        }
        i += 1;
    }
    if t.len() > 0 {
        "light"
    } else {
        "Unknown"
    }
}

/// The theme of the system `os`, `dark`, `light` or `Unknown`, given what
/// the system answered when it was asked.
pub fn get_theme(os: &str, probe: &Probe) -> (theme: &'static str)
    ensures
        theme@ == theme_of(os@, *probe),
{
    if same_text(os, "Windows") {
        match probe {
            Probe::Registry(value) => if *value == 0 {
                "dark"
            } else {
                "light"
            },
            _ => "Unknown",
        }
    } else if same_text(os, "macOS") {
        match probe {
            Probe::Output(output) => defaults_theme(output.as_str()),
            _ => "Unknown",
        }
    } else if same_text(os, "Linux") {
        match probe {
            Probe::Output(output) => gsettings_theme(output.as_str()),
            _ => "Unknown",
        }
    } else {
        "Unknown"
    }
}

} // verus!
