//! The session once the arithmetic has answered.
//!
//! An edit leaves the display waiting for answers. This module follows a
//! session through the answers of an arithmetic, and shows where it comes
//! to rest: on a display that shows what the expression is worth.

use vstd::prelude::*;
use crate::arithmetic::{ReplyView, RequestView};
use crate::error::EvalError;
use crate::evaluation::{
    awaits, consistent, initial, lemma_settle_consistent, lemma_settle_forward, outcome, settle,
    Run,
};
use crate::format::{is_renderable, rendered, spec_needs_digits};
use crate::ieee::ZERO;
use crate::meaning::{
    answered, lemma_answered_tracks, lemma_program_meaning, lemma_run_prefix_ends,
    lemma_settle_tracks, run_code, tracks, value_of, verdict_of,
};
use crate::postfix::{depth, Instr};
use crate::session::{shown, Session, Task};
use crate::syntax::{lemma_normalized_length, normalized, program};

verus! {

/// What the caller answers: `numbers` to the requests for a number,
/// `digits` to the requests for the renderings of a double.
pub struct Arithmetic {
    pub numbers: spec_fn(RequestView) -> u64,
    pub digits: spec_fn(u64) -> (Seq<char>, Seq<char>),
}

impl Arithmetic {
    /// The reply to `request`.
    pub open spec fn reply(self, request: RequestView) -> ReplyView {
        match request {
            RequestView::Digits(bits) => ReplyView::Digits {
                fixed: (self.digits)(bits).0,
                scientific: (self.digits)(bits).1,
            },
            _ => ReplyView::Number((self.numbers)(request)),
        }
    }

    /// What the display shows for `result` under this arithmetic.
    pub open spec fn shows(self, commit: bool, result: Result<u64, EvalError>) -> Seq<char> {
        match result {
            Ok(value) => shown(
                commit,
                result,
                (self.digits)(value).0,
                (self.digits)(value).1,
            ),
            Err(_) => shown(commit, result, Seq::empty(), Seq::empty()),
        }
    }

    /// Whether `value` can be shown as a number under this arithmetic.
    pub open spec fn can_show(self, value: u64) -> bool {
        is_renderable(value, (self.digits)(value).0, (self.digits)(value).1)
    }
}

impl Session {
    /// The session after the arithmetic has answered what it waited for.
    pub open spec fn answered(self, a: Arithmetic) -> Session {
        match self.awaited() {
            Some(request) => self.supply(a.reply(request)),
            None => self,
        }
    }

    /// The session after the arithmetic has answered `rounds` times.
    pub open spec fn settled(self, a: Arithmetic, rounds: nat) -> Session
        decreases rounds,
    {
        if rounds == 0 {
            self
        } else {
            self.answered(a).settled(a, (rounds - 1) as nat)
        }
    }

    /// The session at rest, with the result `result` of its expression on
    /// the display: as a preview or, with `commit`, committed.
    pub open spec fn resting(
        self,
        a: Arithmetic,
        commit: bool,
        result: Result<u64, EvalError>,
    ) -> Session {
        Session {
            display: a.shows(commit, result),
            committed: match result {
                Ok(value) if commit && a.can_show(value) => value,
                _ => self.committed,
            },
            pending_clear: self.pending_clear || commit,
            task: None,
            ..self
        }
    }

    /// The session with an evaluation of its expression at `run`.
    pub open spec fn evaluating(self, commit: bool, run: Run) -> Session {
        Session { task: Some(Task::Evaluating { commit, run }), ..self }
    }

    /// The session that knows the result of its evaluation: it asks for
    /// the renderings of a value that needs them, and shows any other
    /// result.
    pub open spec fn knowing(self, commit: bool, result: Result<u64, EvalError>) -> Session {
        match result {
            Ok(value) if spec_needs_digits(value) => Session {
                task: Some(Task::Rendering { commit, value }),
                ..self
            },
            _ => self.conclude(commit, result, Seq::empty(), Seq::empty()),
        }
    }

    /// A session that waits for nothing stays as it is.
    pub proof fn lemma_settled_idle(self, a: Arithmetic, rounds: nat)
        requires
            self.awaited() is None,
        ensures
            self.settled(a, rounds) == self,
        decreases rounds,
    {
        if rounds > 0 {
            self.lemma_settled_idle(a, (rounds - 1) as nat);
        }
    }

    /// A session that knows the result of its evaluation comes to rest on
    /// it after one more answer, at the latest.
    proof fn lemma_conclusion_rests(
        self,
        a: Arithmetic,
        commit: bool,
        result: Result<u64, EvalError>,
        rounds: nat,
    )
        requires
            rounds >= 1,
        ensures
            self.knowing(commit, result).settled(a, rounds) == self.resting(a, commit, result),
    {
        match result {
            Ok(value) => {
                if spec_needs_digits(value) {
                    let known = Session { task: Some(Task::Rendering { commit, value }), ..self };
                    let rest = known.answered(a);
                    assert(rest == self.resting(a, commit, result));
                    rest.lemma_settled_idle(a, (rounds - 1) as nat);
                } else {
                    let rest = self.conclude(commit, result, Seq::empty(), Seq::empty());
                    assert(rest == self.resting(a, commit, result));
                    rest.lemma_settled_idle(a, rounds);
                }
            },
            Err(_) => {
                let rest = self.conclude(commit, result, Seq::empty(), Seq::empty());
                rest.lemma_settled_idle(a, rounds);
            },
        }
    }

    /// A session whose evaluation is in step with its code comes to rest
    /// on what the code leaves.
    proof fn lemma_evaluation_rests(self, a: Arithmetic, commit: bool, run: Run, rounds: nat)
        requires
            consistent(run),
            tracks(a.numbers, run),
            run.source.len() <= usize::MAX,
            rounds >= program(run.source).code.len() - run.pc + 1,
        ensures
            self.evaluating(commit, run).proceed().settled(a, rounds) == self.resting(
                a,
                commit,
                verdict_of(
                    program(run.source).fault,
                    run_code(a.numbers, run.source, program(run.source).code, Seq::empty()),
                ),
            ),
        decreases rounds,
    {
        let f = a.numbers;
        let code = program(run.source).code;
        let waiting = self.evaluating(commit, run);
        lemma_settle_forward(run);
        match outcome(run) {
            Some(result) => {
                if run.halted {
                    lemma_run_prefix_ends(f, run.source, code, run.pc + 1, Seq::empty());
                } else {
                    assert(code.take(run.pc) == code);
                }
                self.lemma_conclusion_rests(a, commit, result, rounds);
            },
            None => {
                let request = awaits(run).unwrap();
                lemma_answered_tracks(f, run);
                assert(a.reply(request) == ReplyView::Number(f(request)));
                assert(waiting.proceed() == waiting);
                assert(waiting.answered(a) == self.evaluating(commit, answered(f, run)).proceed());
                self.lemma_evaluation_rests(a, commit, answered(f, run), (rounds - 1) as nat);
            },
        }
    }

    /// Where an evaluation comes to rest: once the arithmetic has answered
    /// as often as the code of the expression has instructions, and once
    /// more, the display shows what the expression is worth under that
    /// arithmetic, and nothing is waited for. A commit has recorded the
    /// value, if it can be shown, and set `pending_clear`.
    pub proof fn lemma_evaluate_rests(self, a: Arithmetic, commit: bool, rounds: nat)
        requires
            self.expression.len() <= usize::MAX,
            rounds > program(normalized(self.expression)).code.len(),
        ensures
            self.evaluate(commit).settled(a, rounds) == self.resting(
                a,
                commit,
                value_of(a.numbers, normalized(self.expression)),
            ),
    {
        let source = normalized(self.expression);
        lemma_normalized_length(self.expression);
        assert(depth(program(source).code, 0) == 0);
        assert(program(source).code.take(0) == Seq::<Instr>::empty());
        lemma_settle_consistent(initial(source));
        lemma_settle_tracks(a.numbers, initial(source));
        lemma_settle_forward(initial(source));
        lemma_program_meaning(a.numbers, source);
        self.lemma_evaluation_rests(a, commit, settle(initial(source)), rounds);
    }
}

impl Session {
    /// Evaluating and showing is repeatable: what the display comes to
    /// show depends on the expression and on the arithmetic alone. Two
    /// sessions that hold the same expression show the same once the same
    /// arithmetic has answered often enough, whatever else they hold.
    pub proof fn lemma_same_expression_same_display(
        self,
        other: Session,
        a: Arithmetic,
        commit: bool,
        rounds: nat,
    )
        requires
            self.expression == other.expression,
            self.expression.len() <= usize::MAX,
            rounds > program(normalized(self.expression)).code.len(),
        ensures
            self.evaluate(commit).settled(a, rounds).display == other.evaluate(commit).settled(
                a,
                rounds,
            ).display,
            self.evaluate(commit).settled(a, rounds).awaited() is None,
    {
        self.lemma_evaluate_rests(a, commit, rounds);
        other.lemma_evaluate_rests(a, commit, rounds);
    }

    /// Where a preview comes to rest: once the arithmetic has answered
    /// often enough, the display shows what the expression is worth, or
    /// zero where that is an error.
    pub proof fn lemma_preview_rests(self, a: Arithmetic, rounds: nat)
        requires
            self.expression.len() <= usize::MAX,
            rounds > program(normalized(self.expression)).code.len(),
        ensures
            self.idle().preview().settled(a, rounds) == self.idle().resting(
                a,
                false,
                value_of(a.numbers, normalized(self.expression)),
            ),
    {
        let s = self.idle();
        if self.expression.len() == 0 {
            reveal_strlit("0");
            assert(crate::ieee::spec_magnitude(ZERO) == 0) by (bit_vector);
            assert(rendered(ZERO, (a.digits)(ZERO).0, (a.digits)(ZERO).1) == "0"@);
            s.preview().lemma_settled_idle(a, rounds);
        } else {
            s.lemma_evaluate_rests(a, false, rounds);
        }
    }

    /// After an edit the display follows the expression: once the
    /// arithmetic has answered often enough, it shows what the expression
    /// that the edit left is worth, or zero where that is an error.
    pub proof fn lemma_edited_rests(
        self,
        a: Arithmetic,
        expression: Seq<char>,
        open_parens: int,
        rounds: nat,
    )
        requires
            expression.len() <= usize::MAX,
            rounds > program(normalized(expression)).code.len(),
        ensures
            self.edited(expression, open_parens).settled(a, rounds) == self.rewritten(
                expression,
                open_parens,
            ).resting(a, false, value_of(a.numbers, normalized(expression))),
    {
        self.rewritten(expression, open_parens).lemma_preview_rests(a, rounds);
    }

    /// After the equals key the display shows, once the arithmetic has
    /// answered often enough, what the expression is worth: its value, or
    /// the error that it is. The result is committed.
    pub proof fn lemma_calculate_rests(self, a: Arithmetic, rounds: nat)
        requires
            0 < self.expression.len() <= usize::MAX,
            rounds > program(normalized(self.expression)).code.len(),
        ensures
            self.calculate().settled(a, rounds) == self.idle().resting(
                a,
                true,
                value_of(a.numbers, normalized(self.expression)),
            ),
    {
        self.idle().lemma_evaluate_rests(a, true, rounds);
    }
}

impl Session {
    /// Whether the display is up to date under the arithmetic `a`: nothing
    /// is waited for, and the display shows what the expression is worth,
    /// as a preview or as a committed result.
    pub open spec fn is_fresh(self, a: Arithmetic) -> bool {
        let worth = value_of(a.numbers, normalized(self.expression));
        self.task is None && (self.display == a.shows(false, worth) || self.display == a.shows(
            true,
            worth,
        ))
    }

    /// The initial session is up to date.
    pub proof fn lemma_initial_fresh(a: Arithmetic)
        ensures
            Session::initial().is_fresh(a),
    {
        reveal_strlit("0");
        assert(crate::ieee::spec_magnitude(ZERO) == 0) by (bit_vector);
        assert(rendered(ZERO, (a.digits)(ZERO).0, (a.digits)(ZERO).1) == "0"@);
    }

    /// Whether `rounds` answers are enough for the session to come to
    /// rest: more than the code of its expression has instructions.
    pub open spec fn enough(self, rounds: nat) -> bool {
        self.expression.len() <= usize::MAX && rounds > program(
            normalized(self.expression),
        ).code.len()
    }

    /// Whether the session comes to rest, after `rounds` answers, on a
    /// display that is up to date with the expression it holds now.
    pub open spec fn comes_to_rest(self, a: Arithmetic, rounds: nat) -> bool {
        self.settled(a, rounds).is_fresh(a) && self.settled(a, rounds).expression
            == self.expression
    }

    /// A digit leaves the display up to date.
    proof fn lemma_add_digit_rests(self, a: Arithmetic, id: Seq<char>, rounds: nat)
        requires
            self.is_fresh(a),
            self.add_digit(id).enough(rounds),
        ensures
            self.add_digit(id).comes_to_rest(a, rounds),
    {
        if crate::session::is_digit_id(id) {
            self.lemma_rewritten_rests(a, self.base().push(id[0]), self.base_parens(), rounds);
        } else {
            self.lemma_settled_idle(a, rounds);
        }
    }

    /// A decimal point leaves the display up to date.
    proof fn lemma_add_decimal_rests(self, a: Arithmetic, rounds: nat)
        requires
            self.is_fresh(a),
            self.add_decimal().enough(rounds),
        ensures
            self.add_decimal().comes_to_rest(a, rounds),
    {
        let base = self.base();
        if crate::session::has_point(base) {
            self.lemma_settled_idle(a, rounds);
        } else if crate::session::starts_operand(base) {
            self.lemma_rewritten_rests(a, base.push('0').push('.'), self.base_parens(), rounds);
        } else {
            self.lemma_rewritten_rests(a, base.push('.'), self.base_parens(), rounds);
        }
    }

    /// An operator leaves the display up to date.
    proof fn lemma_add_operator_rests(self, a: Arithmetic, id: Seq<char>, rounds: nat)
        requires
            self.is_fresh(a),
            self.add_operator(id).enough(rounds),
        ensures
            self.add_operator(id).comes_to_rest(a, rounds),
    {
        let after = self.add_operator(id);
        if after == self {
            self.lemma_settled_idle(a, rounds);
        } else {
            self.lemma_rewritten_rests(a, after.expression, after.open_parens, rounds);
        }
    }

    /// A parenthesis leaves the display up to date.
    proof fn lemma_add_parenthesis_rests(self, a: Arithmetic, id: Seq<char>, rounds: nat)
        requires
            self.is_fresh(a),
            self.add_parenthesis(id).enough(rounds),
        ensures
            self.add_parenthesis(id).comes_to_rest(a, rounds),
    {
        let after = self.add_parenthesis(id);
        if id == "open-paren"@ || id == "close-paren"@ {
            self.lemma_rewritten_rests(a, after.expression, after.open_parens, rounds);
        } else {
            self.lemma_settled_idle(a, rounds);
        }
    }

    /// The equals key leaves the display up to date.
    proof fn lemma_calculate_fresh(self, a: Arithmetic, rounds: nat)
        requires
            self.is_fresh(a),
            self.calculate().enough(rounds),
        ensures
            self.calculate().comes_to_rest(a, rounds),
    {
        if self.expression.len() == 0 {
            self.lemma_settled_idle(a, rounds);
        } else {
            self.lemma_calculate_rests(a, rounds);
        }
    }

    /// The backspace key leaves the display up to date.
    proof fn lemma_backspace_rests(self, a: Arithmetic, rounds: nat)
        requires
            self.is_fresh(a),
            self.backspace().enough(rounds),
        ensures
            self.backspace().comes_to_rest(a, rounds),
    {
        if self.expression.len() == 0 {
            self.lemma_settled_idle(a, rounds);
        } else {
            let cut = Session {
                expression: self.expression.drop_last(),
                open_parens: self.open_parens - crate::session::nesting(self.expression.last()),
                task: None,
                ..self
            };
            assert(cut.idle() == cut);
            cut.lemma_preview_rests(a, rounds);
            if cut.expression.len() > 0 {
                assert(cut.preview() == cut.evaluate(false));
            }
        }
    }

    /// The display is never stale: whatever key is pressed on a session
    /// whose display is up to date, the display is up to date again, with
    /// the expression that the key left, once the arithmetic has answered
    /// more often than the code of that expression has instructions.
    pub proof fn lemma_display_never_stale(self, a: Arithmetic, id: Seq<char>, rounds: nat)
        requires
            self.is_fresh(a),
            self.apply(id).enough(rounds),
        ensures
            self.apply(id).comes_to_rest(a, rounds),
    {
        if crate::session::is_digit_id(id) {
            self.lemma_add_digit_rests(a, id, rounds);
        } else if id == "decimal"@ {
            self.lemma_add_decimal_rests(a, rounds);
        } else if crate::session::operator_glyph(id) is Some {
            self.lemma_add_operator_rests(a, id, rounds);
        } else if id == "open-paren"@ || id == "close-paren"@ {
            self.lemma_add_parenthesis_rests(a, id, rounds);
        } else if id == "equals"@ {
            self.lemma_calculate_fresh(a, rounds);
        } else if id == "backspace"@ {
            self.lemma_backspace_rests(a, rounds);
        } else if id == "clear"@ {
            Session::lemma_initial_fresh(a);
            Session::initial().lemma_settled_idle(a, rounds);
        } else {
            self.lemma_settled_idle(a, rounds);
        }
    }

    /// An edit that rewrites the expression leaves the display up to date
    /// once the arithmetic has answered often enough.
    proof fn lemma_rewritten_rests(
        self,
        a: Arithmetic,
        expression: Seq<char>,
        open_parens: int,
        rounds: nat,
    )
        requires
            expression.len() <= usize::MAX,
            rounds > program(normalized(expression)).code.len(),
        ensures
            self.edited(expression, open_parens).settled(a, rounds).is_fresh(a),
            self.edited(expression, open_parens).settled(a, rounds).expression == expression,
            self.edited(expression, open_parens).expression == expression,
            self.edited(expression, open_parens).open_parens == open_parens,
    {
        self.lemma_edited_rests(a, expression, open_parens, rounds);
        let s = self.rewritten(expression, open_parens);
        if expression.len() > 0 {
            assert(s.preview() == s.evaluate(false));
        }
    }
}

} // verus!
