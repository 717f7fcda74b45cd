//! The editing session, as a value of specifications.
//!
//! A [`Session`] is what a calculator holds between two key presses. Each
//! edit is a function from the session before it to the session after it;
//! [`Session::wf`] is what all of them keep.

use vstd::prelude::*;
use crate::arithmetic::{ReplyView, RequestView};
use crate::error::EvalError;
use crate::evaluation::{
    awaits, consistent, initial, lemma_asked_literal, lemma_no_quotient_by_zero,
    lemma_resume_consistent, lemma_resume_forward, lemma_settle_consistent, lemma_settle_forward,
    outcome, resume, settle, Run,
};
use crate::ieee::{spec_is_finite, spec_is_zero};
use crate::format::{
    is_number_text, is_renderable, lemma_rendered_number, rendered, spec_needs_digits,
};
use crate::postfix::depth;
use crate::syntax::{is_literal, lemma_normalized_length, normalized, program, spec_is_digit};

verus! {

/// Whether `c` is one of the four operators as the expression shows them:
/// `+`, `-`, the multiplication sign and the division sign.
pub open spec fn spec_is_operator(c: char) -> bool {
    c == '+' || c == '-' || c == '\u{d7}' || c == '\u{f7}'
}

#[verifier::when_used_as_spec(spec_is_operator)]
pub fn is_operator(c: char) -> (b: bool)
    ensures
        b == spec_is_operator(c),
{
    c == '+' || c == '-' || c == '\u{d7}' || c == '\u{f7}'
}

/// By how much `c` changes the number of open parentheses.
pub open spec fn nesting(c: char) -> int {
    if c == '(' {
        1
    } else if c == ')' {
        -1
    } else {
        0
    }
}

/// The opening parentheses of `e` less its closing ones.
pub open spec fn balance(e: Seq<char>) -> int
    decreases e.len(),
{
    if e.len() == 0 {
        0
    } else {
        balance(e.drop_last()) + nesting(e.last())
    }
}

/// No closing parenthesis of `e` comes before its opening one. The
/// [`balance`] of such an `e` is the number of its opening parentheses
/// that are not matched.
pub open spec fn well_nested(e: Seq<char>) -> bool {
    forall|k: int| 0 <= k <= e.len() ==> balance(#[trigger] e.take(k)) >= 0
}

/// Whether the digits at the end of `e` follow a decimal point.
pub open spec fn has_point(e: Seq<char>) -> bool
    decreases e.len(),
{
    if e.len() == 0 {
        false
    } else if e.last() == '.' {
        true
    } else if spec_is_digit(e.last()) {
        has_point(e.drop_last())
    } else {
        false
    }
}

/// Whether a new operand may start after `e`: `e` is empty or ends in an
/// operator or an opening parenthesis.
pub open spec fn starts_operand(e: Seq<char>) -> bool {
    e.len() == 0 || spec_is_operator(e.last()) || e.last() == '('
}

/// Whether an operand ends where `e` ends: in a digit, a point or a
/// closing parenthesis.
pub open spec fn ends_operand(e: Seq<char>) -> bool {
    e.len() > 0 && (spec_is_digit(e.last()) || e.last() == '.' || e.last() == ')')
}

/// The shape that every expression keeps: no operator follows another,
/// so that it never ends in two of them, and if it starts with an
/// operator, that is a minus sign.
pub open spec fn is_tidy(e: Seq<char>) -> bool {
    &&& forall|i: int|
        0 <= i < e.len() - 1 && spec_is_operator(#[trigger] e[i]) ==> !spec_is_operator(e[i + 1])
    &&& e.len() >= 1 ==> (spec_is_operator(e[0]) ==> e[0] == '-')
}

/// The shape of every text on the display: it is not empty, tidy, holds no
/// parenthesis and does not end in an operator.
pub open spec fn is_plain(t: Seq<char>) -> bool {
    &&& t.len() > 0
    &&& is_tidy(t)
    &&& forall|i: int| 0 <= i < t.len() ==> nesting(#[trigger] t[i]) == 0
    &&& !spec_is_operator(t.last())
}

/// Whether `id` names a digit key: it is one decimal digit.
pub open spec fn is_digit_id(id: Seq<char>) -> bool {
    id.len() == 1 && spec_is_digit(id[0])
}

/// The glyph of the operator that `id` names, if it names one.
pub open spec fn operator_glyph(id: Seq<char>) -> Option<char> {
    if id == "plus"@ {
        Some('+')
    } else if id == "minus"@ {
        Some('-')
    } else if id == "multiply"@ {
        Some('\u{d7}')
    } else if id == "divide"@ {
        Some('\u{f7}')
    } else {
        None
    }
}

/// What a session still has to find out.
pub enum Task {
    /// The value of the expression, for the preview or, with `commit`, as
    /// the final result.
    Evaluating { commit: bool, run: Run },
    /// The renderings of the value that the expression was found to have.
    Rendering { commit: bool, value: u64 },
}

/// The editing state.
pub struct Session {
    /// The formula as the user sees it.
    pub expression: Seq<char>,
    /// The preview or the final result that was computed last.
    pub display: Seq<char>,
    /// The bit pattern of the value that was committed last.
    pub committed: u64,
    /// Set by a commit: the next edit starts afresh or from the result.
    pub pending_clear: bool,
    /// The number of opening parentheses that are not matched.
    pub open_parens: int,
    /// What is being found out for the display, if anything is.
    pub task: Option<Task>,
}

/// What the display shows for the result of an evaluation. A commit shows
/// an error as such; a preview shows zero in its place.
pub open spec fn shown(
    commit: bool,
    result: Result<u64, EvalError>,
    fixed: Seq<char>,
    scientific: Seq<char>,
) -> Seq<char> {
    match result {
        Ok(value) => {
            if is_renderable(value, fixed, scientific) {
                rendered(value, fixed, scientific)
            } else if commit {
                "Error"@
            } else {
                "0"@
            }
        },
        Err(e) => {
            if commit {
                "Error: "@ + e.spec_message()
            } else {
                "0"@
            }
        },
    }
}

impl Session {
    /// The session of a calculator that was just made.
    pub open spec fn initial() -> Session {
        Session {
            expression: Seq::empty(),
            display: "0"@,
            committed: 0,
            pending_clear: false,
            open_parens: 0,
            task: None,
        }
    }

    /// What every session satisfies: the count of open parentheses is that
    /// of the expression, in which no parenthesis closes before it opens;
    /// the expression is tidy and the display plain; and a task is about
    /// the expression as it stands, and waits for an answer.
    pub open spec fn wf(self) -> bool {
        &&& well_nested(self.expression)
        &&& self.open_parens == balance(self.expression)
        &&& is_tidy(self.expression)
        &&& is_plain(self.display)
        &&& match self.task {
            Some(Task::Evaluating { commit, run }) => {
                &&& consistent(run)
                &&& outcome(run) is None
                &&& run.source == normalized(self.expression)
            },
            Some(Task::Rendering { commit, value }) => spec_needs_digits(value),
            None => true,
        }
    }

    /// The arithmetic that the session waits for, if it waits.
    pub open spec fn awaited(self) -> Option<RequestView> {
        match self.task {
            Some(Task::Evaluating { commit, run }) => awaits(run),
            Some(Task::Rendering { commit, value }) => Some(RequestView::Digits(value)),
            None => None,
        }
    }

    /// The session once the result of its task is known: the display shows
    /// it and nothing is left to find out. A commit records the value it
    /// shows and sets `pending_clear`, whatever it shows.
    pub open spec fn conclude(
        self,
        commit: bool,
        result: Result<u64, EvalError>,
        fixed: Seq<char>,
        scientific: Seq<char>,
    ) -> Session {
        Session {
            display: shown(commit, result, fixed, scientific),
            committed: match result {
                Ok(value) if commit && is_renderable(value, fixed, scientific) => value,
                _ => self.committed,
            },
            pending_clear: self.pending_clear || commit,
            task: None,
            ..self
        }
    }

    /// The session taken as far as it goes without an answer: an
    /// evaluation that has ended is concluded, or goes on to ask for the
    /// renderings of its value where they are needed.
    pub open spec fn proceed(self) -> Session {
        match self.task {
            Some(Task::Evaluating { commit, run }) => match outcome(run) {
                None => self,
                Some(Err(e)) => self.conclude(commit, Err(e), Seq::empty(), Seq::empty()),
                Some(Ok(value)) => {
                    if spec_needs_digits(value) {
                        Session { task: Some(Task::Rendering { commit, value }), ..self }
                    } else {
                        self.conclude(commit, Ok(value), Seq::empty(), Seq::empty())
                    }
                },
            },
            _ => self,
        }
    }

    /// The session with an evaluation of its expression under way.
    pub open spec fn evaluate(self, commit: bool) -> Session {
        Session {
            task: Some(
                Task::Evaluating { commit, run: settle(initial(normalized(self.expression))) },
            ),
            ..self
        }.proceed()
    }

    /// The session with its preview under way: zero for the empty
    /// expression, else what the evaluation of the expression gives.
    pub open spec fn preview(self) -> Session {
        if self.expression.len() == 0 {
            Session { display: "0"@, task: None, ..self }
        } else {
            self.evaluate(false)
        }
    }

    /// The session with nothing under way.
    pub open spec fn idle(self) -> Session {
        Session { task: None, ..self }
    }

    /// The session with `expression` and `open_parens` in place of its own,
    /// `pending_clear` unset and nothing under way.
    pub open spec fn rewritten(self, expression: Seq<char>, open_parens: int) -> Session {
        Session { expression, open_parens, pending_clear: false, task: None, ..self }
    }

    /// The session as an edit leaves it: rewritten, with the preview under
    /// way.
    pub open spec fn edited(self, expression: Seq<char>, open_parens: int) -> Session {
        self.rewritten(expression, open_parens).preview()
    }

    /// The expression that an edit other than an operator goes on from:
    /// the empty one after a commit.
    pub open spec fn base(self) -> Seq<char> {
        if self.pending_clear {
            Seq::empty()
        } else {
            self.expression
        }
    }

    /// The number of open parentheses of what an edit goes on from. After
    /// a commit these are none: neither the empty expression nor the
    /// display holds a parenthesis.
    pub open spec fn base_parens(self) -> int {
        if self.pending_clear {
            0
        } else {
            self.open_parens
        }
    }

    /// After the digit key `id`: the digit is appended. Any other `id` is
    /// ignored.
    pub open spec fn add_digit(self, id: Seq<char>) -> Session {
        if is_digit_id(id) {
            self.edited(self.base().push(id[0]), self.base_parens())
        } else {
            self
        }
    }

    /// After the decimal key: a point is appended, behind a zero where a
    /// new operand starts. The key is ignored where the digits at the end
    /// already follow a point.
    pub open spec fn add_decimal(self) -> Session {
        let base = self.base();
        if has_point(base) {
            self
        } else if starts_operand(base) {
            self.edited(base.push('0').push('.'), self.base_parens())
        } else {
            self.edited(base.push('.'), self.base_parens())
        }
    }

    /// After the operator key `id`: the glyph of the operator is appended,
    /// in place of an operator that the expression ended in. After a
    /// commit the expression goes on from the display. An `id` that names
    /// no operator is ignored, and so is an operator other than minus that
    /// would come to stand first.
    pub open spec fn add_operator(self, id: Seq<char>) -> Session {
        let from = if self.pending_clear {
            self.display
        } else {
            self.expression
        };
        let kept = if from.len() > 0 && spec_is_operator(from.last()) {
            from.drop_last()
        } else {
            from
        };
        match operator_glyph(id) {
            Some(glyph) if kept.len() > 0 || glyph == '-' => self.edited(
                kept.push(glyph),
                self.base_parens(),
            ),
            _ => self,
        }
    }

    /// After the parenthesis key `id`. An opening parenthesis is appended
    /// where a new operand may start; a closing one where a parenthesis is
    /// open and an operand ends. Where it is not appended, the edit still
    /// takes place, with the expression that it found or, after a commit,
    /// the empty one. An `id` that names no parenthesis is ignored.
    pub open spec fn add_parenthesis(self, id: Seq<char>) -> Session {
        let base = self.base();
        let open = self.base_parens();
        if id == "open-paren"@ {
            if starts_operand(base) {
                self.edited(base.push('('), open + 1)
            } else {
                self.edited(base, open)
            }
        } else if id == "close-paren"@ {
            if open > 0 && ends_operand(base) {
                self.edited(base.push(')'), open - 1)
            } else {
                self.edited(base, open)
            }
        } else {
            self
        }
    }

    /// After the equals key: the evaluation of the expression is under
    /// way, and its result will be committed. Nothing happens where the
    /// expression is empty.
    pub open spec fn calculate(self) -> Session {
        if self.expression.len() == 0 {
            self
        } else {
            self.idle().evaluate(true)
        }
    }

    /// After the backspace key: the last character is gone, and the count
    /// of open parentheses follows. Nothing happens where the expression
    /// is empty.
    pub open spec fn backspace(self) -> Session {
        if self.expression.len() == 0 {
            self
        } else {
            Session {
                expression: self.expression.drop_last(),
                open_parens: self.open_parens - nesting(self.expression.last()),
                task: None,
                ..self
            }.preview()
        }
    }

    /// After the clear key: the initial session.
    pub open spec fn clear(self) -> Session {
        Session::initial()
    }

    /// After `reply` has come. A number answers an evaluation that waits,
    /// digits answer a rendering that waits; any other reply is ignored.
    pub open spec fn supply(self, reply: ReplyView) -> Session {
        match (self.task, reply) {
            (Some(Task::Evaluating { commit, run }), ReplyView::Number(bits)) => Session {
                task: Some(Task::Evaluating { commit, run: resume(run, bits) }),
                ..self
            }.proceed(),
            (
                Some(Task::Rendering { commit, value }),
                ReplyView::Digits { fixed, scientific },
            ) => self.conclude(commit, Ok(value), fixed, scientific),
            _ => self,
        }
    }

    /// After the key `id`: a digit, `decimal`, an operator, a parenthesis,
    /// `equals`, `backspace` or `clear`. Any other `id` is ignored.
    pub open spec fn apply(self, id: Seq<char>) -> Session {
        if is_digit_id(id) {
            self.add_digit(id)
        } else if id == "decimal"@ {
            self.add_decimal()
        } else if operator_glyph(id) is Some {
            self.add_operator(id)
        } else if id == "open-paren"@ || id == "close-paren"@ {
            self.add_parenthesis(id)
        } else if id == "equals"@ {
            self.calculate()
        } else if id == "backspace"@ {
            self.backspace()
        } else if id == "clear"@ {
            self.clear()
        } else {
            self
        }
    }
}

/// One more character changes the balance by its nesting, and keeps the
/// expression well nested unless it closes what was not opened.
pub proof fn lemma_push_nesting(e: Seq<char>, c: char)
    ensures
        balance(e.push(c)) == balance(e) + nesting(c),
        well_nested(e) ==> balance(e) >= 0,
        well_nested(e) && balance(e) + nesting(c) >= 0 ==> well_nested(e.push(c)),
{
    assert(e.push(c).drop_last() == e);
    assert(e.take(e.len() as int) == e);
    if well_nested(e) && balance(e) + nesting(c) >= 0 {
        assert forall|k: int| 0 <= k <= e.push(c).len() implies balance(
            #[trigger] e.push(c).take(k),
        ) >= 0 by {
            if k <= e.len() {
                assert(e.push(c).take(k) == e.take(k));
            } else {
                assert(e.push(c).take(k) == e.push(c));
                assert(e.take(e.len() as int) == e);
            }
        }
    }
}

/// One character less changes the balance by its nesting, and keeps the
/// expression well nested.
pub proof fn lemma_drop_nesting(e: Seq<char>)
    requires
        e.len() > 0,
        well_nested(e),
    ensures
        balance(e.drop_last()) == balance(e) - nesting(e.last()),
        well_nested(e.drop_last()),
{
    assert forall|k: int| 0 <= k <= e.drop_last().len() implies balance(
        #[trigger] e.drop_last().take(k),
    ) >= 0 by {
        assert(e.drop_last().take(k) == e.take(k));
    }
}

/// A text without parentheses is well nested, and its balance is zero.
pub proof fn lemma_flat(t: Seq<char>)
    requires
        forall|i: int| 0 <= i < t.len() ==> nesting(#[trigger] t[i]) == 0,
    ensures
        balance(t) == 0,
        well_nested(t),
    decreases t.len(),
{
    if t.len() > 0 {
        lemma_flat(t.drop_last());
        lemma_push_nesting(t.drop_last(), t.last());
        assert(t.drop_last().push(t.last()) == t);
    } else {
        assert forall|k: int| 0 <= k <= t.len() implies balance(#[trigger] t.take(k)) >= 0 by {
            assert(t.take(k) == t);
        }
    }
}

/// A tidy expression stays tidy with one more character, unless that
/// makes an operator follow another or stand first without being a minus
/// sign.
pub proof fn lemma_push_tidy(e: Seq<char>, c: char)
    requires
        is_tidy(e),
        spec_is_operator(c) ==> (if e.len() == 0 {
            c == '-'
        } else {
            !spec_is_operator(e.last())
        }),
    ensures
        is_tidy(e.push(c)),
{
    let f = e.push(c);
    assert forall|i: int| 0 <= i < f.len() - 1 && spec_is_operator(#[trigger] f[i])
        implies !spec_is_operator(f[i + 1]) by {
        if i < e.len() - 1 {
            assert(f[i] == e[i]);
            assert(f[i + 1] == e[i + 1]);
        }
    }
}

/// A tidy expression stays tidy with one character less.
pub proof fn lemma_drop_tidy(e: Seq<char>)
    requires
        is_tidy(e),
        e.len() > 0,
    ensures
        is_tidy(e.drop_last()),
        e.len() >= 2 && spec_is_operator(e.last()) ==> !spec_is_operator(e.drop_last().last()),
{
    let f = e.drop_last();
    assert forall|i: int| 0 <= i < f.len() - 1 && spec_is_operator(#[trigger] f[i])
        implies !spec_is_operator(f[i + 1]) by {
        assert(f[i] == e[i]);
        assert(f[i + 1] == e[i + 1]);
    }
    if e.len() >= 2 && spec_is_operator(e.last()) {
        assert(spec_is_operator(e[e.len() - 2]) ==> !spec_is_operator(e[e.len() - 2 + 1]));
    }
}

/// A text with the shape of a number is plain.
pub proof fn lemma_number_plain(t: Seq<char>)
    requires
        is_number_text(t),
    ensures
        is_plain(t),
{
    assert forall|i: int| 0 <= i < t.len() - 1 && spec_is_operator(#[trigger] t[i])
        implies !spec_is_operator(t[i + 1]) by {
        assert(crate::format::is_number_char(t[i]));
    }
    assert(crate::format::is_number_char(t[0]));
    assert forall|i: int| 0 <= i < t.len() implies nesting(#[trigger] t[i]) == 0 by {
        assert(crate::format::is_number_char(t[i]));
    }
}

/// Whether neither an operator nor a parenthesis occurs in `t`.
pub open spec fn is_words(t: Seq<char>) -> bool {
    forall|i: int| 0 <= i < t.len() ==> !spec_is_operator(#[trigger] t[i]) && nesting(t[i]) == 0
}

/// A text in which neither an operator nor a parenthesis occurs is plain,
/// if it is not empty.
pub proof fn lemma_words_plain(t: Seq<char>)
    requires
        t.len() > 0,
        is_words(t),
    ensures
        is_plain(t),
{
}

/// The words of every error hold neither an operator nor a parenthesis.
pub proof fn lemma_message_words(e: EvalError)
    ensures
        is_words(e.spec_message()),
        is_words("Error: "@),
        is_words("Error"@),
        is_words("0"@),
        "Error: "@.len() > 0,
        "Error"@.len() > 0,
        "0"@.len() > 0,
{
    reveal_strlit("Incomplete expression");
    reveal_strlit("Division by zero");
    reveal_strlit("Invalid number format");
    reveal_strlit("Unexpected character");
    reveal_strlit("Missing closing parenthesis");
    reveal_strlit("Unexpected end of expression");
    reveal_strlit("Error: ");
    reveal_strlit("Error");
    reveal_strlit("0");
}

/// Whatever the display shows for a result is plain.
pub proof fn lemma_shown_plain(
    commit: bool,
    result: Result<u64, EvalError>,
    fixed: Seq<char>,
    scientific: Seq<char>,
)
    ensures
        is_plain(shown(commit, result, fixed, scientific)),
{
    lemma_message_words(EvalError::DivisionByZero);
    match result {
        Ok(value) => {
            if is_renderable(value, fixed, scientific) {
                lemma_rendered_number(value, fixed, scientific);
                lemma_number_plain(rendered(value, fixed, scientific));
            } else if commit {
                lemma_words_plain("Error"@);
            } else {
                lemma_words_plain("0"@);
            }
        },
        Err(e) => {
            if commit {
                lemma_message_words(e);
                let t = "Error: "@ + e.spec_message();
                assert forall|i: int| 0 <= i < t.len() implies !spec_is_operator(#[trigger] t[i])
                    && nesting(t[i]) == 0 by {
                    if i < "Error: "@.len() {
                        assert(t[i] == "Error: "@[i]);
                    } else {
                        assert(t[i] == e.spec_message()[i - "Error: "@.len()]);
                    }
                }
                lemma_words_plain(t);
            } else {
                lemma_words_plain("0"@);
            }
        },
    }
}

impl Session {
    /// What an edit needs of the session it starts from, whatever the
    /// task of that session: a plain display.
    pub open spec fn shows_plain(self) -> bool {
        is_plain(self.display)
    }

    /// What an edit needs of the expression it leaves: it is well nested
    /// and tidy, and `open_parens` is its balance.
    pub open spec fn holds(expression: Seq<char>, open_parens: int) -> bool {
        well_nested(expression) && open_parens == balance(expression) && is_tidy(expression)
    }

    /// Concluding a task leaves a well-formed session.
    pub proof fn lemma_conclude_wf(
        self,
        commit: bool,
        result: Result<u64, EvalError>,
        fixed: Seq<char>,
        scientific: Seq<char>,
    )
        requires
            Session::holds(self.expression, self.open_parens),
        ensures
            self.conclude(commit, result, fixed, scientific).wf(),
    {
        lemma_shown_plain(commit, result, fixed, scientific);
    }

    /// Going on with an evaluation that is about the expression leaves a
    /// well-formed session.
    pub proof fn lemma_proceed_wf(self)
        requires
            Session::holds(self.expression, self.open_parens),
            self.shows_plain(),
            match self.task {
                Some(Task::Evaluating { commit, run }) => consistent(run) && run.source
                    == normalized(self.expression),
                Some(Task::Rendering { commit, value }) => spec_needs_digits(value),
                None => true,
            },
        ensures
            self.proceed().wf(),
    {
        match self.task {
            Some(Task::Evaluating { commit, run }) => match outcome(run) {
                None => {},
                Some(result) => {
                    self.lemma_conclude_wf(commit, result, Seq::empty(), Seq::empty());
                },
            },
            _ => {},
        }
    }

    /// Starting an evaluation leaves a well-formed session.
    pub proof fn lemma_evaluate_wf(self, commit: bool)
        requires
            Session::holds(self.expression, self.open_parens),
            self.shows_plain(),
        ensures
            self.evaluate(commit).wf(),
    {
        let source = normalized(self.expression);
        assert(depth(program(source).code, 0) == 0);
        lemma_settle_consistent(initial(source));
        lemma_settle_forward(initial(source));
        Session {
            task: Some(Task::Evaluating { commit, run: settle(initial(source)) }),
            ..self
        }.lemma_proceed_wf();
    }

    /// Every edit leaves a well-formed session, if the expression that it
    /// leaves is well nested and tidy and `open_parens` is its balance.
    pub proof fn lemma_edited_wf(self, expression: Seq<char>, open_parens: int)
        requires
            self.shows_plain(),
            Session::holds(expression, open_parens),
        ensures
            self.edited(expression, open_parens).wf(),
    {
        let s = Session { expression, open_parens, pending_clear: false, task: None, ..self };
        if expression.len() == 0 {
            lemma_message_words(EvalError::DivisionByZero);
            lemma_words_plain("0"@);
        } else {
            s.lemma_evaluate_wf(false);
        }
    }

    /// What an edit goes on from is well nested and tidy.
    pub proof fn lemma_base_holds(self)
        requires
            self.wf(),
        ensures
            Session::holds(self.base(), self.base_parens()),
    {
        if self.pending_clear {
            lemma_flat(Seq::<char>::empty());
        }
    }

    /// A digit keeps the session well formed.
    pub proof fn lemma_add_digit_wf(self, id: Seq<char>)
        requires
            self.wf(),
        ensures
            self.add_digit(id).wf(),
    {
        if is_digit_id(id) {
            self.lemma_base_holds();
            lemma_push_nesting(self.base(), id[0]);
            lemma_push_tidy(self.base(), id[0]);
            self.lemma_edited_wf(self.base().push(id[0]), self.base_parens());
        }
    }

    /// A decimal point keeps the session well formed.
    pub proof fn lemma_add_decimal_wf(self)
        requires
            self.wf(),
        ensures
            self.add_decimal().wf(),
    {
        let base = self.base();
        self.lemma_base_holds();
        if has_point(base) {
        } else if starts_operand(base) {
            lemma_push_nesting(base, '0');
            lemma_push_tidy(base, '0');
            lemma_push_nesting(base.push('0'), '.');
            lemma_push_tidy(base.push('0'), '.');
            self.lemma_edited_wf(base.push('0').push('.'), self.base_parens());
        } else {
            lemma_push_nesting(base, '.');
            lemma_push_tidy(base, '.');
            self.lemma_edited_wf(base.push('.'), self.base_parens());
        }
    }

    /// An operator keeps the session well formed.
    pub proof fn lemma_add_operator_wf(self, id: Seq<char>)
        requires
            self.wf(),
        ensures
            self.add_operator(id).wf(),
    {
        let from = if self.pending_clear {
            self.display
        } else {
            self.expression
        };
        let kept = if from.len() > 0 && spec_is_operator(from.last()) {
            from.drop_last()
        } else {
            from
        };
        match operator_glyph(id) {
            Some(glyph) => {
                if kept.len() > 0 || glyph == '-' {
                    if self.pending_clear {
                        lemma_flat(from);
                    }
                    assert(Session::holds(from, self.base_parens()));
                    if from.len() > 0 && spec_is_operator(from.last()) {
                        lemma_drop_nesting(from);
                        lemma_drop_tidy(from);
                    }
                    lemma_push_nesting(kept, glyph);
                    lemma_push_tidy(kept, glyph);
                    self.lemma_edited_wf(kept.push(glyph), self.base_parens());
                }
            },
            None => {},
        }
    }

    /// A parenthesis keeps the session well formed.
    pub proof fn lemma_add_parenthesis_wf(self, id: Seq<char>)
        requires
            self.wf(),
        ensures
            self.add_parenthesis(id).wf(),
    {
        let base = self.base();
        let open = self.base_parens();
        self.lemma_base_holds();
        if id == "open-paren"@ {
            if starts_operand(base) {
                lemma_push_nesting(base, '(');
                lemma_push_tidy(base, '(');
                self.lemma_edited_wf(base.push('('), open + 1);
            } else {
                self.lemma_edited_wf(base, open);
            }
        } else if id == "close-paren"@ {
            if open > 0 && ends_operand(base) {
                lemma_push_nesting(base, ')');
                lemma_push_tidy(base, ')');
                self.lemma_edited_wf(base.push(')'), open - 1);
            } else {
                self.lemma_edited_wf(base, open);
            }
        }
    }

    /// The equals key keeps the session well formed.
    pub proof fn lemma_calculate_wf(self)
        requires
            self.wf(),
        ensures
            self.calculate().wf(),
    {
        if self.expression.len() > 0 {
            Session { task: None, ..self }.lemma_evaluate_wf(true);
        }
    }

    /// The backspace key keeps the session well formed.
    pub proof fn lemma_backspace_wf(self)
        requires
            self.wf(),
        ensures
            self.backspace().wf(),
    {
        if self.expression.len() > 0 {
            lemma_drop_nesting(self.expression);
            lemma_drop_tidy(self.expression);
            let s = Session {
                expression: self.expression.drop_last(),
                open_parens: self.open_parens - nesting(self.expression.last()),
                task: None,
                ..self
            };
            if s.expression.len() == 0 {
                lemma_message_words(EvalError::DivisionByZero);
                lemma_words_plain("0"@);
            } else {
                s.lemma_evaluate_wf(false);
            }
        }
    }

    /// The initial session is well formed.
    pub proof fn lemma_initial_wf()
        ensures
            Session::initial().wf(),
    {
        lemma_flat(Seq::<char>::empty());
        lemma_message_words(EvalError::DivisionByZero);
        lemma_words_plain("0"@);
    }

    /// An answer keeps the session well formed.
    pub proof fn lemma_supply_wf(self, reply: ReplyView)
        requires
            self.wf(),
        ensures
            self.supply(reply).wf(),
    {
        match (self.task, reply) {
            (Some(Task::Evaluating { commit, run }), ReplyView::Number(bits)) => {
                lemma_resume_consistent(run, bits);
                lemma_resume_forward(run, bits);
                Session {
                    task: Some(Task::Evaluating { commit, run: resume(run, bits) }),
                    ..self
                }.lemma_proceed_wf();
            },
            (
                Some(Task::Rendering { commit, value }),
                ReplyView::Digits { fixed, scientific },
            ) => {
                self.lemma_conclude_wf(commit, Ok(value), fixed, scientific);
            },
            _ => {},
        }
    }

    /// Every key keeps the session well formed.
    pub proof fn lemma_apply_wf(self, id: Seq<char>)
        requires
            self.wf(),
        ensures
            self.apply(id).wf(),
    {
        self.lemma_add_digit_wf(id);
        self.lemma_add_decimal_wf();
        self.lemma_add_operator_wf(id);
        self.lemma_add_parenthesis_wf(id);
        self.lemma_calculate_wf();
        self.lemma_backspace_wf();
        Session::lemma_initial_wf();
    }
}

/// What happens to a session: a key is pressed, or an answer comes.
pub enum Event {
    Key(Seq<char>),
    Answer(ReplyView),
}

impl Session {
    /// The session after `event`.
    pub open spec fn after(self, event: Event) -> Session {
        match event {
            Event::Key(id) => self.apply(id),
            Event::Answer(reply) => self.supply(reply),
        }
    }

    /// The session after `events`, one after the other.
    pub open spec fn after_all(self, events: Seq<Event>) -> Session
        decreases events.len(),
    {
        if events.len() == 0 {
            self
        } else {
            self.after_all(events.drop_last()).after(events.last())
        }
    }

    /// Whatever keys are pressed and whatever answers come, in whatever
    /// order, the session stays well formed.
    pub proof fn lemma_after_all_wf(self, events: Seq<Event>)
        requires
            self.wf(),
        ensures
            self.after_all(events).wf(),
        decreases events.len(),
    {
        if events.len() > 0 {
            let before = self.after_all(events.drop_last());
            self.lemma_after_all_wf(events.drop_last());
            match events.last() {
                Event::Key(id) => before.lemma_apply_wf(id),
                Event::Answer(reply) => before.lemma_supply_wf(reply),
            }
        }
    }

    /// The balance of parentheses: after any keys and any answers, from
    /// the initial session on, the count of open parentheses is the
    /// number of opening parentheses of the expression that are not
    /// matched, and no parenthesis of the expression closes what was not
    /// opened.
    pub proof fn lemma_parentheses_balance(events: Seq<Event>)
        ensures
            Session::initial().after_all(events).open_parens == balance(
                Session::initial().after_all(events).expression,
            ),
            well_nested(Session::initial().after_all(events).expression),
            Session::initial().after_all(events).open_parens >= 0,
    {
        Session::lemma_initial_wf();
        Session::initial().lemma_after_all_wf(events);
        let e = Session::initial().after_all(events).expression;
        assert(e.take(e.len() as int) == e);
    }

    /// What a well-formed session asks for can be done: a literal is one
    /// of the grammar, a divisor is not zero, and a double whose
    /// renderings are asked for is finite.
    pub proof fn lemma_awaited_doable(self)
        requires
            self.wf(),
            self.expression.len() <= usize::MAX,
        ensures
            self.awaited() matches Some(RequestView::Literal(text)) ==> is_literal(text),
            self.awaited() matches Some(RequestView::Divide(dividend, divisor)) ==> !spec_is_zero(
                divisor,
            ),
            self.awaited() matches Some(RequestView::Digits(value)) ==> spec_is_finite(value),
    {
        match self.task {
            Some(Task::Evaluating { commit, run }) => {
                lemma_normalized_length(self.expression);
                lemma_asked_literal(run);
                lemma_no_quotient_by_zero(run);
            },
            _ => {},
        }
    }

    /// Clearing twice is clearing once.
    pub proof fn lemma_clear_idempotent(self)
        ensures
            self.clear().clear() == self.clear(),
    {
    }
}

} // verus!
