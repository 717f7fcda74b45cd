//! The calculator: an expression that is edited key by key, and a display
//! that follows it.
//!
//! Every edit returns the arithmetic that the display now waits for, if
//! any. The caller performs it and hands the result to
//! [`Calculator::supply`], which returns what is needed next; once nothing
//! is, the display is up to date. An edit that comes before that drops
//! what was under way.

use vstd::prelude::*;
use vstd::slice::slice_to_vec;
use crate::arithmetic::{view_of, Reply, Request};
use crate::error::EvalError;
use crate::evaluation::Evaluation;
use crate::format::{needs_digits, render_finite};
use crate::ieee::is_finite;
use crate::session::{
    balance, has_point, is_digit_id, is_operator, lemma_drop_nesting, lemma_push_nesting,
    operator_glyph, Session, Task,
};
use crate::syntax::is_digit;
use crate::text::{same_text, to_chars, to_string};

verus! {

/// What a calculator is finding out for its display.
enum Job {
    Evaluating { commit: bool, evaluation: Evaluation },
    Rendering { commit: bool, value: u64 },
}

/// The editing state of one calculator.
pub struct Calculator {
    expression: Vec<char>,
    result: Vec<char>,
    last_result: u64,
    should_reset_expression: bool,
    parentheses_count: usize,
    job: Option<Job>,
}

/// The task that a job stands for.
spec fn task_of(job: Option<Job>) -> Option<Task> {
    match job {
        Some(Job::Evaluating { commit, evaluation }) => Some(
            Task::Evaluating { commit, run: evaluation@ },
        ),
        Some(Job::Rendering { commit, value }) => Some(Task::Rendering { commit, value }),
        None => None,
    }
}

/// The balance of an expression is at most its length.
proof fn lemma_balance_bound(e: Seq<char>)
    ensures
        balance(e) <= e.len(),
    decreases e.len(),
{
    if e.len() > 0 {
        lemma_balance_bound(e.drop_last());
    }
}

/// Whether `id` names a digit key; if so, the digit.
fn digit_of(id: &str) -> (digit: Option<char>)
    ensures
        match digit {
            Some(c) => is_digit_id(id@) && c == id@[0],
            None => !is_digit_id(id@),
        },
{
    let chars = to_chars(id);
    if chars.len() == 1 && is_digit(chars[0]) {
        Some(chars[0])
    } else {
        None
    }
}

/// The glyph of the operator that `id` names, if it names one.
fn glyph_of(id: &str) -> (glyph: Option<char>)
    ensures
        glyph == operator_glyph(id@),
{
    if same_text(id, "plus") {
        Some('+')
    } else if same_text(id, "minus") {
        Some('-')
    } else if same_text(id, "multiply") {
        Some('\u{d7}')
    } else if same_text(id, "divide") {
        Some('\u{f7}')
    } else {
        None
    }
}

/// Computes [`has_point`].
fn ends_after_point(e: &Vec<char>) -> (b: bool)
    ensures
        b == has_point(e@),
{
    let mut n = e.len();
    assert(e@.take(n as int) == e@);
    while n > 0 && is_digit(e[n - 1])
        invariant
            n <= e.len(),
            has_point(e@.take(n as int)) == has_point(e@),
        decreases n,
    {
        assert(e@.take(n as int).drop_last() == e@.take(n - 1));
        n -= 1;
    }
    n > 0 && e[n - 1] == '.'
}

impl View for Calculator {
    type V = Session;

    closed spec fn view(&self) -> Session {
        Session {
            expression: self.expression@,
            display: self.result@,
            committed: self.last_result,
            pending_clear: self.should_reset_expression,
            open_parens: self.parentheses_count as int,
            task: task_of(self.job),
        }
    }
}

impl Calculator {
    /// An evaluation that is under way is in order.
    closed spec fn job_wf(&self) -> bool {
        match self.job {
            Some(Job::Evaluating { commit, evaluation }) => evaluation.wf(),
            _ => true,
        }
    }

    /// The invariant of the type: the session is well formed.
    pub closed spec fn wf(&self) -> bool {
        self@.wf() && self.job_wf()
    }

    /// A calculator that is in order holds a well-formed session: what
    /// [`Session::wf`] says holds of it, the balance of parentheses
    /// included.
    pub proof fn lemma_wf(&self)
        requires
            self.wf(),
        ensures
            self@.wf(),
    {
    }

    /// A calculator with an empty expression and zero on its display.
    pub fn new() -> (calculator: Self)
        ensures
            calculator.wf(),
            calculator@ == Session::initial(),
    {
        proof {
            Session::lemma_initial_wf();
        }
        Calculator {
            expression: Vec::new(),
            result: to_chars("0"),
            last_result: 0,
            should_reset_expression: false,
            parentheses_count: 0,
            job: None,
        }
    }

    /// The arithmetic that the display waits for; `None` where it is up
    /// to date.
    pub fn request(&self) -> (request: Option<Request>)
        requires
            self.wf(),
        ensures
            view_of(request) == self@.awaited(),
    {
        match &self.job {
            Some(Job::Evaluating { commit, evaluation }) => evaluation.request(),
            Some(Job::Rendering { commit, value }) => Some(Request::Digits(*value)),
            None => None,
        }
    }

    /// Shows the result of a task, and commits it if asked to.
    fn conclude(
        &mut self,
        commit: bool,
        result: Result<u64, EvalError>,
        fixed: &[char],
        scientific: &[char],
    )
        requires
            old(self).job_wf(),
        ensures
            final(self).job_wf(),
            final(self)@ == old(self)@.conclude(commit, result, fixed@, scientific@),
    {
        let mut text: Option<Vec<char>> = None;
        match result {
            Ok(value) => {
                if is_finite(value) {
                    text = render_finite(value, fixed, scientific);
                    if commit && text.is_some() {
                        self.last_result = value;
                    }
                }
                if text.is_none() && commit {
                    text = Some(to_chars("Error"));
                }
            },
            Err(e) => {
                if commit {
                    let mut words = to_chars("Error: ");
                    let mut message = to_chars(e.message());
                    words.append(&mut message);
                    text = Some(words);
                }
            },
        }
        self.result = match text {
            Some(t) => t,
            None => to_chars("0"),
        };
        if commit {
            self.should_reset_expression = true;
        }
        self.job = None;
    }

    /// Goes on with the task as far as no answer is needed.
    fn proceed(&mut self)
        requires
            old(self).job_wf(),
        ensures
            final(self).job_wf(),
            final(self)@ == old(self)@.proceed(),
    {
        let empty: Vec<char> = Vec::new();
        match self.job.take() {
            Some(Job::Evaluating { commit, evaluation }) => {
                match evaluation.outcome() {
                    None => {
                        self.job = Some(Job::Evaluating { commit, evaluation });
                    },
                    Some(Err(e)) => {
                        self.conclude(commit, Err(e), empty.as_slice(), empty.as_slice());
                    },
                    Some(Ok(value)) => {
                        if needs_digits(value) {
                            self.job = Some(Job::Rendering { commit, value });
                        } else {
                            self.conclude(commit, Ok(value), empty.as_slice(), empty.as_slice());
                        }
                    },
                }
            },
            other => {
                self.job = other;
            },
        }
    }

    /// Starts the evaluation of the expression.
    fn evaluate_expression(&mut self, commit: bool)
        ensures
            final(self).job_wf(),
            final(self)@ == old(self)@.evaluate(commit),
    {
        let evaluation = Evaluation::over(self.expression.as_slice());
        self.job = Some(Job::Evaluating { commit, evaluation });
        self.proceed();
    }

    /// Brings the display up to date with the expression, as far as no
    /// answer is needed.
    fn update_result(&mut self)
        ensures
            final(self).job_wf(),
            final(self)@ == old(self)@.preview(),
    {
        if self.expression.len() == 0 {
            self.result = to_chars("0");
            self.job = None;
        } else {
            self.evaluate_expression(false);
        }
    }

    /// Starts an edit that does not go on from the display: after a
    /// commit, the expression is emptied.
    fn start_edit(&mut self)
        ensures
            final(self).expression@ == old(self)@.base(),
            final(self).parentheses_count == old(self)@.base_parens(),
            !final(self).should_reset_expression,
            final(self).job is None,
            final(self).result == old(self).result,
            final(self).last_result == old(self).last_result,
    {
        if self.should_reset_expression {
            self.expression.clear();
            self.parentheses_count = 0;
            self.should_reset_expression = false;
        }
        self.job = None;
    }

    /// The digit key `digit`, one of `0` to `9`: the digit is appended to
    /// the expression, which is emptied first after a commit. Anything
    /// else is ignored.
    pub fn add_digit(&mut self, digit: &str) -> (request: Option<Request>)
        requires
            old(self).wf(),
        ensures
            final(self).wf(),
            final(self)@ == old(self)@.add_digit(digit@),
            view_of(request) == final(self)@.awaited(),
    {
        proof {
            old(self)@.lemma_add_digit_wf(digit@);
        }
        match digit_of(digit) {
            Some(c) => {
                self.start_edit();
                self.expression.push(c);
                self.update_result();
            },
            None => {},
        }
        self.request()
    }

    /// The decimal key: a point is appended, behind a zero where a new
    /// operand starts. The key is ignored where the digits at the end of
    /// the expression already follow a point.
    pub fn add_decimal(&mut self) -> (request: Option<Request>)
        requires
            old(self).wf(),
        ensures
            final(self).wf(),
            final(self)@ == old(self)@.add_decimal(),
            view_of(request) == final(self)@.awaited(),
    {
        proof {
            old(self)@.lemma_add_decimal_wf();
        }
        if self.should_reset_expression || !ends_after_point(&self.expression) {
            self.start_edit();
            let n = self.expression.len();
            if n == 0 || is_operator(self.expression[n - 1]) || self.expression[n - 1] == '(' {
                self.expression.push('0');
            }
            self.expression.push('.');
            self.update_result();
        }
        self.request()
    }

    /// The operator key `operator`, one of `plus`, `minus`, `multiply` and
    /// `divide`: its glyph is appended, in place of an operator that the
    /// expression ended in. After a commit the expression goes on from
    /// what the display shows. Anything else is ignored, and so is an
    /// operator other than `minus` that would come to stand first.
    pub fn add_operator(&mut self, operator: &str) -> (request: Option<Request>)
        requires
            old(self).wf(),
        ensures
            final(self).wf(),
            final(self)@ == old(self)@.add_operator(operator@),
            view_of(request) == final(self)@.awaited(),
    {
        proof {
            old(self)@.lemma_add_operator_wf(operator@);
        }
        match glyph_of(operator) {
            Some(glyph) => {
                let from = if self.should_reset_expression {
                    &self.result
                } else {
                    &self.expression
                };
                let n = from.len();
                let kept = if n > 0 && is_operator(from[n - 1]) {
                    n - 1
                } else {
                    n
                };
                if kept > 0 || glyph == '-' {
                    let mut expression = slice_to_vec(
                        vstd::slice::slice_subrange(from.as_slice(), 0, kept),
                    );
                    assert(from@.subrange(0, kept as int) == if kept < n {
                        from@.drop_last()
                    } else {
                        from@
                    });
                    expression.push(glyph);
                    if self.should_reset_expression {
                        self.parentheses_count = 0;
                        self.should_reset_expression = false;
                    }
                    self.expression = expression;
                    self.job = None;
                    self.update_result();
                }
            },
            None => {},
        }
        self.request()
    }

    /// The parenthesis key `paren_type`, `open-paren` or `close-paren`. An
    /// opening parenthesis is appended where a new operand may start: at
    /// the start, after an operator or after an opening parenthesis. A
    /// closing one is appended where a parenthesis is open and an operand
    /// ends: after a digit, a point or a closing parenthesis. After a
    /// commit the expression is emptied first. Anything else is ignored.
    pub fn add_parenthesis(&mut self, paren_type: &str) -> (request: Option<Request>)
        requires
            old(self).wf(),
        ensures
            final(self).wf(),
            final(self)@ == old(self)@.add_parenthesis(paren_type@),
            view_of(request) == final(self)@.awaited(),
    {
        proof {
            old(self)@.lemma_add_parenthesis_wf(paren_type@);
            old(self)@.lemma_base_holds();
            lemma_push_nesting(old(self)@.base(), '(');
            lemma_balance_bound(old(self)@.base().push('('));
        }
        if same_text(paren_type, "open-paren") {
            self.start_edit();
            let n = self.expression.len();
            if n == 0 || is_operator(self.expression[n - 1]) || self.expression[n - 1] == '(' {
                self.expression.push('(');
                assert(self.expression@.len() == self.expression.len());
                self.parentheses_count += 1;
            }
            self.update_result();
        } else if same_text(paren_type, "close-paren") {
            self.start_edit();
            let n = self.expression.len();
            if self.parentheses_count > 0 && n > 0 && (is_digit(self.expression[n - 1])
                || self.expression[n - 1] == '.' || self.expression[n - 1] == ')') {
                self.expression.push(')');
                self.parentheses_count -= 1;
            }
            self.update_result();
        }
        self.request()
    }

    /// The equals key: the expression is evaluated, and its value or its
    /// error is committed to the display when it is known. The expression
    /// stays as it is. Nothing happens where it is empty.
    pub fn calculate(&mut self) -> (request: Option<Request>)
        requires
            old(self).wf(),
        ensures
            final(self).wf(),
            final(self)@ == old(self)@.calculate(),
            view_of(request) == final(self)@.awaited(),
    {
        proof {
            old(self)@.lemma_calculate_wf();
        }
        if self.expression.len() > 0 {
            self.job = None;
            self.evaluate_expression(true);
        }
        self.request()
    }

    /// The backspace key: the last character of the expression is taken
    /// away. Nothing happens where the expression is empty.
    pub fn backspace(&mut self) -> (request: Option<Request>)
        requires
            old(self).wf(),
        ensures
            final(self).wf(),
            final(self)@ == old(self)@.backspace(),
            view_of(request) == final(self)@.awaited(),
    {
        proof {
            old(self)@.lemma_backspace_wf();
        }
        if self.expression.len() > 0 {
            proof {
                lemma_drop_nesting(self.expression@);
                lemma_push_nesting(self.expression@.drop_last(), self.expression@.last());
                lemma_balance_bound(self.expression@.drop_last());
            }
            match self.expression.pop() {
                Some('(') => {
                    self.parentheses_count -= 1;
                },
                Some(')') => {
                    self.parentheses_count += 1;
                },
                _ => {},
            }
            self.job = None;
            self.update_result();
        }
        self.request()
    }

    /// The clear key: the calculator is as it was when it was made.
    pub fn clear(&mut self)
        ensures
            final(self).wf(),
            final(self)@ == old(self)@.clear(),
    {
        proof {
            Session::lemma_initial_wf();
        }
        self.expression.clear();
        self.result = to_chars("0");
        self.last_result = 0;
        self.should_reset_expression = false;
        self.parentheses_count = 0;
        self.job = None;
    }

    /// Takes `reply` as the answer to what the display waits for, and
    /// returns what it waits for next. A reply of the wrong kind, or one
    /// that nothing waits for, is ignored.
    pub fn supply(&mut self, reply: Reply) -> (request: Option<Request>)
        requires
            old(self).wf(),
        ensures
            final(self).wf(),
            final(self)@ == old(self)@.supply(reply@),
            view_of(request) == final(self)@.awaited(),
    {
        proof {
            old(self)@.lemma_supply_wf(reply@);
        }
        match self.job.take() {
            Some(Job::Evaluating { commit, evaluation }) => {
                let mut evaluation = evaluation;
                match reply {
                    Reply::Number(bits) => {
                        evaluation.supply(bits);
                        self.job = Some(Job::Evaluating { commit, evaluation });
                        self.proceed();
                    },
                    _ => {
                        self.job = Some(Job::Evaluating { commit, evaluation });
                    },
                }
            },
            Some(Job::Rendering { commit, value }) => {
                match reply {
                    Reply::Digits { fixed, scientific } => {
                        let f = to_chars(fixed.as_str());
                        let s = to_chars(scientific.as_str());
                        self.conclude(commit, Ok(value), f.as_slice(), s.as_slice());
                    },
                    _ => {
                        self.job = Some(Job::Rendering { commit, value });
                    },
                }
            },
            None => {},
        }
        self.request()
    }

    /// The expression as the user sees it.
    pub fn get_expression(&self) -> (text: String)
        ensures
            text@ == self@.expression,
    {
        to_string(self.expression.as_slice())
    }

    /// What the display shows.
    pub fn get_result(&self) -> (text: String)
        ensures
            text@ == self@.display,
    {
        to_string(self.result.as_slice())
    }

    /// The bit pattern of the value that was committed last; zero before
    /// the first commit.
    pub fn last_result(&self) -> (bits: u64)
        ensures
            bits == self@.committed,
    {
        self.last_result
    }

    /// The number of parentheses that are open.
    pub fn open_parens(&self) -> (count: usize)
        ensures
            count == self@.open_parens,
    {
        self.parentheses_count
    }

    /// Whether a result was committed and no edit has followed.
    pub fn pending_clear(&self) -> (pending: bool)
        ensures
            pending == self@.pending_clear,
    {
        self.should_reset_expression
    }
}

/// Applies the key `button_id` to the calculator: a digit `0` to `9`,
/// `decimal`, `plus`, `minus`, `multiply`, `divide`, `open-paren`,
/// `close-paren`, `equals`, `backspace` or `clear`. Any other id changes
/// nothing. Returns the arithmetic that the display waits for.
pub fn handle_calculator_input(button_id: &str, calculator: &mut Calculator) -> (request: Option<
    Request,
>)
    requires
        old(calculator).wf(),
    ensures
        final(calculator).wf(),
        final(calculator)@ == old(calculator)@.apply(button_id@),
        view_of(request) == final(calculator)@.awaited(),
{
    if digit_of(button_id).is_some() {
        calculator.add_digit(button_id)
    } else if same_text(button_id, "decimal") {
        calculator.add_decimal()
    } else if glyph_of(button_id).is_some() {
        calculator.add_operator(button_id)
    } else if same_text(button_id, "open-paren") || same_text(button_id, "close-paren") {
        calculator.add_parenthesis(button_id)
    } else if same_text(button_id, "equals") {
        calculator.calculate()
    } else if same_text(button_id, "backspace") {
        calculator.backspace()
    } else if same_text(button_id, "clear") {
        calculator.clear();
        None
    } else {
        calculator.request()
    }
}

} // verus!
