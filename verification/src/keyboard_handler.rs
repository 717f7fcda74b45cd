//! The physical keyboard: which key stands for which button.

use vstd::prelude::*;
use vstd::string::StringExecFns;
use crate::arithmetic::{view_of, Request};
use crate::calculator::{handle_calculator_input, Calculator};
use crate::text::same_text;

verus! {

/// One key and the button it stands for.
pub struct KeyMapping {
    pub key: String,
    pub button_type: &'static str,
    pub button_id: &'static str,
}

/// A table from key names to buttons, each button a kind and an id.
pub struct KeyboardHandler {
    entries: Vec<KeyMapping>,
}

/// The table that a new handler holds.
pub open spec fn default_bindings() -> Map<Seq<char>, (Seq<char>, Seq<char>)> {
    Map::empty()
        .insert("0"@, ("NUMBER"@, "0"@))
        .insert("1"@, ("NUMBER"@, "1"@))
        .insert("2"@, ("NUMBER"@, "2"@))
        .insert("3"@, ("NUMBER"@, "3"@))
        .insert("4"@, ("NUMBER"@, "4"@))
        .insert("5"@, ("NUMBER"@, "5"@))
        .insert("6"@, ("NUMBER"@, "6"@))
        .insert("7"@, ("NUMBER"@, "7"@))
        .insert("8"@, ("NUMBER"@, "8"@))
        .insert("9"@, ("NUMBER"@, "9"@))
        .insert("+"@, ("OPERATOR"@, "plus"@))
        .insert("-"@, ("OPERATOR"@, "minus"@))
        .insert("*"@, ("OPERATOR"@, "multiply"@))
        .insert("/"@, ("OPERATOR"@, "divide"@))
        .insert("="@, ("EQUALS"@, "equals"@))
        .insert("Enter"@, ("EQUALS"@, "equals"@))
        .insert("."@, ("DECIMAL"@, "decimal"@))
        .insert(","@, ("DECIMAL"@, "decimal"@))
        .insert("("@, ("PARENTHESIS"@, "open-paren"@))
        .insert(")"@, ("PARENTHESIS"@, "close-paren"@))
        .insert("Backspace"@, ("FUNCTION"@, "backspace"@))
        .insert("Delete"@, ("CLEAR"@, "clear"@))
        .insert("c"@, ("CLEAR"@, "clear"@))
        .insert("C"@, ("CLEAR"@, "clear"@))
        .insert("Escape"@, ("FUNCTION"@, "settings"@))
}

/// The button of a mapping, as sequences of characters.
pub open spec fn button_of(m: KeyMapping) -> (Seq<char>, Seq<char>) {
    (m.button_type@, m.button_id@)
}

/// The views of a button that may be absent.
pub open spec fn button_view(button: Option<(&'static str, &'static str)>) -> Option<
    (Seq<char>, Seq<char>),
> {
    match button {
        Some((button_type, button_id)) => Some((button_type@, button_id@)),
        None => None,
    }
}

impl View for KeyboardHandler {
    type V = Map<Seq<char>, (Seq<char>, Seq<char>)>;

    closed spec fn view(&self) -> Map<Seq<char>, (Seq<char>, Seq<char>)> {
        Map::new(
            |k: Seq<char>| self.holds(k),
            |k: Seq<char>| button_of(self.entries[self.index_of(k)]),
        )
    }
}

impl KeyboardHandler {
    /// Whether some entry has the key `k`.
    closed spec fn holds(&self, k: Seq<char>) -> bool {
        exists|i: int| 0 <= i < self.entries.len() && #[trigger] self.entries[i].key@ == k
    }

    /// The place of an entry with the key `k`.
    closed spec fn index_of(&self, k: Seq<char>) -> int {
        choose|i: int| 0 <= i < self.entries.len() && #[trigger] self.entries[i].key@ == k
    }

    /// No key stands in two entries.
    pub closed spec fn wf(&self) -> bool {
        forall|i: int, j: int|
            0 <= i < j < self.entries.len() ==> #[trigger] self.entries[i].key@
                != #[trigger] self.entries[j].key@
    }

    /// The place of the entry with the key `key`, if there is one.
    fn find(&self, key: &str) -> (place: Option<usize>)
        requires
            self.wf(),
        ensures
            match place {
                Some(i) => i < self.entries.len() && self.entries[i as int].key@ == key@
                    && self.holds(key@) && self.index_of(key@) == i,
                None => !self.holds(key@),
            },
    {
        let mut i: usize = 0;
        while i < self.entries.len()
            invariant
                self.wf(),
                i <= self.entries.len(),
                forall|j: int| 0 <= j < i ==> #[trigger] self.entries[j].key@ != key@,
            decreases self.entries.len() - i,
        {
            if same_text(self.entries[i].key.as_str(), key) {
                assert(self.entries[i as int].key@ == key@);
                return Some(i);
            }
            i += 1;
        }
        None
    }

    /// A handler with the default table: the digits, the four operators,
    /// `=` and `Enter`, `.` and `,`, the parentheses, `Backspace`,
    /// `Delete`, `c`, `C` and `Escape`.
    pub fn new() -> (handler: Self)
        ensures
            handler.wf(),
            handler@ == default_bindings(),
    {
        let mut handler = KeyboardHandler { entries: Vec::new() };
        assert(handler@ =~= Map::empty());
        handler.add_key_mapping(String::from_str("0"), "NUMBER", "0");
        handler.add_key_mapping(String::from_str("1"), "NUMBER", "1");
        handler.add_key_mapping(String::from_str("2"), "NUMBER", "2");
        handler.add_key_mapping(String::from_str("3"), "NUMBER", "3");
        handler.add_key_mapping(String::from_str("4"), "NUMBER", "4");
        handler.add_key_mapping(String::from_str("5"), "NUMBER", "5");
        handler.add_key_mapping(String::from_str("6"), "NUMBER", "6");
        handler.add_key_mapping(String::from_str("7"), "NUMBER", "7");
        handler.add_key_mapping(String::from_str("8"), "NUMBER", "8");
        handler.add_key_mapping(String::from_str("9"), "NUMBER", "9");
        handler.add_key_mapping(String::from_str("+"), "OPERATOR", "plus");
        handler.add_key_mapping(String::from_str("-"), "OPERATOR", "minus");
        handler.add_key_mapping(String::from_str("*"), "OPERATOR", "multiply");
        handler.add_key_mapping(String::from_str("/"), "OPERATOR", "divide");
        handler.add_key_mapping(String::from_str("="), "EQUALS", "equals");
        handler.add_key_mapping(String::from_str("Enter"), "EQUALS", "equals");
        handler.add_key_mapping(String::from_str("."), "DECIMAL", "decimal");
        handler.add_key_mapping(String::from_str(","), "DECIMAL", "decimal");
        handler.add_key_mapping(String::from_str("("), "PARENTHESIS", "open-paren");
        handler.add_key_mapping(String::from_str(")"), "PARENTHESIS", "close-paren");
        handler.add_key_mapping(String::from_str("Backspace"), "FUNCTION", "backspace");
        handler.add_key_mapping(String::from_str("Delete"), "CLEAR", "clear");
        handler.add_key_mapping(String::from_str("c"), "CLEAR", "clear");
        handler.add_key_mapping(String::from_str("C"), "CLEAR", "clear");
        handler.add_key_mapping(String::from_str("Escape"), "FUNCTION", "settings");
        handler
    }

    /// The button that `key` stands for; `None` for a key that the table
    /// does not hold.
    pub fn handle_key(&self, key: &str) -> (button: Option<(&'static str, &'static str)>)
        requires
            self.wf(),
        ensures
            button_view(button) == if self@.contains_key(key@) {
                Some(self@[key@])
            } else {
                None
            },
    {
        match self.find(key) {
            Some(i) => Some((self.entries[i].button_type, self.entries[i].button_id)),
            None => None,
        }
    }

    /// The keys of the table, each once.
    pub fn get_supported_keys(&self) -> (keys: Vec<String>)
        requires
            self.wf(),
        ensures
            forall|k: Seq<char>|
                self@.contains_key(k) <==> exists|i: int|
                    0 <= i < keys.len() && #[trigger] keys[i]@ == k,
            forall|i: int, j: int|
                0 <= i < j < keys.len() ==> #[trigger] keys[i]@ != #[trigger] keys[j]@,
    {
        let mut keys: Vec<String> = Vec::new();
        let mut i: usize = 0;
        while i < self.entries.len()
            invariant
                i <= self.entries.len(),
                keys.len() == i,
                forall|j: int| 0 <= j < i ==> #[trigger] keys[j]@ == self.entries[j].key@,
            decreases self.entries.len() - i,
        {
            keys.push(self.entries[i].key.clone());
            i += 1;
        }
        assert forall|k: Seq<char>| self@.contains_key(k) implies exists|i: int|
            0 <= i < keys.len() && #[trigger] keys[i]@ == k by {
            let i = self.index_of(k);
            assert(keys[i]@ == k);
        }
        assert forall|k: Seq<char>|
            (exists|i: int| 0 <= i < keys.len() && #[trigger] keys[i]@ == k)
                implies self@.contains_key(k) by {
            let i = choose|i: int| 0 <= i < keys.len() && #[trigger] keys[i]@ == k;
            assert(self.entries[i].key@ == k);
        }
        keys
    }

    /// Lets `key` stand for the button `button_type`, `button_id`, whatever
    /// it stood for before.
    pub fn add_key_mapping(
        &mut self,
        key: String,
        button_type: &'static str,
        button_id: &'static str,
    )
        requires
            old(self).wf(),
        ensures
            final(self).wf(),
            final(self)@ == old(self)@.insert(key@, (button_type@, button_id@)),
    {
        let ghost k = key@;
        let ghost button = (button_type@, button_id@);
        let place = self.find(key.as_str());
        let entry = KeyMapping { key, button_type, button_id };
        match place {
            Some(i) => {
                self.entries.set(i, entry);
                assert(self.entries[i as int].key@ == k);
            },
            None => {
                self.entries.push(entry);
                assert(self.entries[self.entries.len() - 1].key@ == k);
            },
        }
        assert forall|q: Seq<char>| #[trigger] old(self).holds(q) implies self.holds(q) by {
            let j = old(self).index_of(q);
            assert(self.entries[j].key@ == q);
        }
        assert forall|q: Seq<char>| #[trigger] self.holds(q) && q != k implies old(self).holds(
            q,
        ) && button_of(self.entries[self.index_of(q)]) == button_of(
            old(self).entries[old(self).index_of(q)],
        ) by {
            let j = self.index_of(q);
            assert(old(self).entries[j].key@ == q);
            let j0 = old(self).index_of(q);
            assert(j0 == j);
        }
        assert(self@ =~= old(self)@.insert(k, button));
    }
}

/// The note that is logged when a button press is simulated.
pub open spec fn simulation_note(button_type: Seq<char>, button_id: Seq<char>) -> Seq<char> {
    "Simulating calculator button press: Type: "@ + button_type + ", ID: "@ + button_id
}

/// Simulates the press of a button. Nothing is pressed: the result is the
/// note that says so, for the caller to log.
pub fn simulate_calculator_button_press(button_type: &str, button_id: &str) -> (note: String)
    ensures
        note@ == simulation_note(button_type@, button_id@),
{
    let mut note = String::from_str("Simulating calculator button press: Type: ");
    note.append(button_type);
    note.append(", ID: ");
    note.append(button_id);
    note
}

/// The name of the key that typed `text`: the control characters of the
/// return, backspace, delete and escape keys have the names `Enter`,
/// `Backspace`, `Delete` and `Escape`; any other text is its own name.
pub open spec fn key_name_of(text: Seq<char>) -> Seq<char> {
    if text == "\n"@ || text == "\r"@ {
        "Enter"@
    } else if text == "\u{8}"@ {
        "Backspace"@
    } else if text == "\u{7f}"@ {
        "Delete"@
    } else if text == "\u{1b}"@ {
        "Escape"@
    } else {
        text
    }
}

/// The name of the key that typed `text`, as the table of a
/// [`KeyboardHandler`] knows it.
pub fn key_name<'a>(text: &'a str) -> (name: &'a str)
    ensures
        name@ == key_name_of(text@),
{
    if same_text(text, "\n") || same_text(text, "\r") {
        "Enter"
    } else if same_text(text, "\u{8}") {
        "Backspace"
    } else if same_text(text, "\u{7f}") {
        "Delete"
    } else if same_text(text, "\u{1b}") {
        "Escape"
    } else {
        text
    }
}

/// Applies the key `key` of the physical keyboard to the calculator: the
/// button that the key stands for in `handler` is pressed. A key that
/// stands for no button changes nothing. Returns the arithmetic that the
/// display waits for.
pub fn handle_keyboard_input(
    key: &str,
    handler: &KeyboardHandler,
    calculator: &mut Calculator,
) -> (request: Option<Request>)
    requires
        handler.wf(),
        old(calculator).wf(),
    ensures
        final(calculator).wf(),
        final(calculator)@ == if handler@.contains_key(key@) {
            old(calculator)@.apply(handler@[key@].1)
        } else {
            old(calculator)@
        },
        view_of(request) == final(calculator)@.awaited(),
{
    match handler.handle_key(key) {
        Some((_, button_id)) => handle_calculator_input(button_id, calculator),
        None => calculator.request(),
    }
}

} // verus!
