//! Running the code of an expression.
//!
//! An [`Evaluation`] is a stack machine that stops wherever it needs
//! arithmetic. It goes by itself over what needs none: a literal whose
//! digits are all zero is zero, a negation flips the sign bit, and a
//! division whose divisor is zero ends the run with an error before any
//! quotient is asked for.

use vstd::prelude::*;
use vstd::slice::slice_subrange;
use crate::arithmetic::{view_of, Request, RequestView};
use crate::error::EvalError;
use crate::ieee::{is_zero, negate, spec_is_zero, spec_negate, ZERO};
use crate::postfix::{delta, depth, needs, spans_inside, stack_safe, Instr};
use crate::syntax::{
    compile, is_literal, lemma_program_sound, lemma_scanned_is_literal, normalize, normalized,
    program,
};
use crate::text::{to_chars, to_string};

verus! {

/// Whether `t` holds, from `i` up to its exponent or its end, nothing but
/// zeros and points.
pub open spec fn zero_from(t: Seq<char>, i: int) -> bool
    decreases t.len() - i,
{
    if i < 0 || i >= t.len() || t[i] == 'e' || t[i] == 'E' {
        true
    } else {
        (t[i] == '0' || t[i] == '.') && zero_from(t, i + 1)
    }
}

/// Whether the literal `t` is textually zero: every digit before its
/// exponent is `0`. Such a literal stands for zero whatever its exponent.
pub open spec fn is_zero_literal(t: Seq<char>) -> bool {
    zero_from(t, 0)
}

/// Computes [`is_zero_literal`].
pub fn zero_literal(t: &[char]) -> (zero: bool)
    ensures
        zero == is_zero_literal(t@),
{
    let mut i: usize = 0;
    while i < t.len() && t[i] != 'e' && t[i] != 'E'
        invariant
            i <= t.len(),
            zero_from(t@, i as int) == zero_from(t@, 0),
        decreases t.len() - i,
    {
        if t[i] != '0' && t[i] != '.' {
            return false;
        }
        i += 1;
    }
    true
}

/// The state of a run: the normalized source, the index of the next
/// instruction of its code, the stack, and whether a division by zero has
/// ended the run.
pub struct Run {
    pub source: Seq<char>,
    pub pc: int,
    pub stack: Seq<u64>,
    pub halted: bool,
}

/// The run of `source` before its first instruction.
pub open spec fn initial(source: Seq<char>) -> Run {
    Run { source, pc: 0, stack: Seq::empty(), halted: false }
}

/// The run after the next instruction, with `stack` for its stack.
pub open spec fn advance(run: Run, stack: Seq<u64>) -> Run {
    Run { source: run.source, pc: run.pc + 1, stack, halted: false }
}

/// The text of the literal that `source` holds from `start` up to `end`.
pub open spec fn literal_text(source: Seq<char>, start: usize, end: usize) -> Seq<char> {
    source.subrange(start as int, end as int)
}

/// The run taken as far as it goes without arithmetic.
pub open spec fn settle(run: Run) -> Run
    decreases program(run.source).code.len() - run.pc,
{
    let code = program(run.source).code;
    if run.halted || run.pc < 0 || run.pc >= code.len() {
        run
    } else {
        match code[run.pc] {
            Instr::Number { start, end } => {
                if is_zero_literal(literal_text(run.source, start, end)) {
                    settle(advance(run, run.stack.push(ZERO)))
                } else {
                    run
                }
            },
            Instr::Negate => settle(
                advance(run, run.stack.drop_last().push(spec_negate(run.stack.last()))),
            ),
            Instr::Divide => {
                if spec_is_zero(run.stack.last()) {
                    Run { halted: true, ..run }
                } else {
                    run
                }
            },
            _ => run,
        }
    }
}

/// The arithmetic that a settled run waits for, if it waits.
pub open spec fn awaits(run: Run) -> Option<RequestView> {
    let code = program(run.source).code;
    if run.halted || run.pc < 0 || run.pc >= code.len() {
        None
    } else {
        let upper = run.stack.last();
        let lower = run.stack.drop_last().last();
        match code[run.pc] {
            Instr::Number { start, end } => Some(
                RequestView::Literal(literal_text(run.source, start, end)),
            ),
            Instr::Negate => None,
            Instr::Add => Some(RequestView::Add(lower, upper)),
            Instr::Subtract => Some(RequestView::Subtract(lower, upper)),
            Instr::Multiply => Some(RequestView::Multiply(lower, upper)),
            Instr::Divide => Some(RequestView::Divide(lower, upper)),
        }
    }
}

/// The run after `bits` has come for what it waited for. A run that waits
/// for nothing stays as it is.
pub open spec fn resume(run: Run, bits: u64) -> Run {
    let code = program(run.source).code;
    if run.halted || run.pc < 0 || run.pc >= code.len() {
        run
    } else {
        match code[run.pc] {
            Instr::Number { .. } => settle(advance(run, run.stack.push(bits))),
            Instr::Negate => run,
            _ => settle(advance(run, run.stack.drop_last().drop_last().push(bits))),
        }
    }
}

/// How the run ended, if it has: with a division by zero; or at the end of
/// its code, with the fault of the source or else with the value on top of
/// the stack, zero for the empty source.
pub open spec fn outcome(run: Run) -> Option<Result<u64, EvalError>> {
    let compiled = program(run.source);
    if run.halted {
        Some(Err(EvalError::DivisionByZero))
    } else if run.pc >= compiled.code.len() {
        Some(
            match compiled.fault {
                Some(e) => Err(e),
                None => Ok(
                    if run.stack.len() == 0 {
                        ZERO
                    } else {
                        run.stack.last()
                    },
                ),
            },
        )
    } else {
        None
    }
}

/// Whether the run stands inside its code, on a stack as high as the code
/// before it left it.
pub open spec fn fits(run: Run) -> bool {
    let code = program(run.source).code;
    &&& 0 <= run.pc <= code.len()
    &&& run.stack.len() == depth(code, run.pc)
}

/// What holds of every run that an [`Evaluation`] is in: it fits its code
/// and is settled.
pub open spec fn consistent(run: Run) -> bool {
    fits(run) && settle(run) == run
}

/// Settling a run that fits its code makes it consistent.
pub proof fn lemma_settle_consistent(run: Run)
    requires
        fits(run),
    ensures
        consistent(settle(run)),
    decreases program(run.source).code.len() - run.pc,
{
    let code = program(run.source).code;
    lemma_program_sound(run.source);
    if !run.halted && run.pc < code.len() {
        assert(depth(code, run.pc) >= needs(code[run.pc]));
        assert(depth(code, run.pc + 1) == depth(code, run.pc) + delta(code[run.pc]));
        match code[run.pc] {
            Instr::Number { start, end } => {
                if is_zero_literal(literal_text(run.source, start, end)) {
                    lemma_settle_consistent(advance(run, run.stack.push(ZERO)));
                }
            },
            Instr::Negate => {
                lemma_settle_consistent(
                    advance(run, run.stack.drop_last().push(spec_negate(run.stack.last()))),
                );
            },
            _ => {},
        }
    }
}

/// A consistent run stays consistent when it takes an answer.
pub proof fn lemma_resume_consistent(run: Run, bits: u64)
    requires
        consistent(run),
    ensures
        consistent(resume(run, bits)),
{
    let code = program(run.source).code;
    lemma_program_sound(run.source);
    if !run.halted && run.pc < code.len() {
        assert(depth(code, run.pc) >= needs(code[run.pc]));
        assert(depth(code, run.pc + 1) == depth(code, run.pc) + delta(code[run.pc]));
        match code[run.pc] {
            Instr::Number { .. } => {
                lemma_settle_consistent(advance(run, run.stack.push(bits)));
            },
            Instr::Negate => {},
            _ => {
                lemma_settle_consistent(
                    advance(run, run.stack.drop_last().drop_last().push(bits)),
                );
            },
        }
    }
}

/// Settling moves a run forward or not at all, and a run that is settled
/// and has not ended stands at an instruction that needs arithmetic.
pub proof fn lemma_settle_forward(run: Run)
    ensures
        settle(run).source == run.source,
        settle(run).pc >= run.pc,
        0 <= run.pc && settle(run) == run && outcome(run) is None ==> awaits(run) is Some,
    decreases program(run.source).code.len() - run.pc,
{
    let code = program(run.source).code;
    if !run.halted && 0 <= run.pc < code.len() {
        match code[run.pc] {
            Instr::Number { start, end } => {
                if is_zero_literal(literal_text(run.source, start, end)) {
                    lemma_settle_forward(advance(run, run.stack.push(ZERO)));
                }
            },
            Instr::Negate => {
                lemma_settle_forward(
                    advance(run, run.stack.drop_last().push(spec_negate(run.stack.last()))),
                );
            },
            _ => {},
        }
    }
}

/// A run that has come to a division whose divisor is zero, be it
/// positive or negative, ends there with the error of a division by zero:
/// no quotient is asked for, and none is the outcome.
pub proof fn lemma_zero_divisor_ends_run(run: Run)
    requires
        !run.halted,
        0 <= run.pc < program(run.source).code.len(),
        program(run.source).code[run.pc] == Instr::Divide,
        spec_is_zero(run.stack.last()),
    ensures
        outcome(settle(run)) == Some(Err::<u64, EvalError>(EvalError::DivisionByZero)),
        awaits(settle(run)) is None,
{
}

/// A run that has come to a divisor that is textually zero ends with the
/// error of a division by zero, whatever was answered before.
pub proof fn lemma_zero_literal_divisor_ends_run(run: Run)
    requires
        !run.halted,
        0 <= run.pc,
        run.pc + 1 < program(run.source).code.len(),
        program(run.source).code[run.pc] matches Instr::Number { start, end }
            && is_zero_literal(literal_text(run.source, start, end)),
        program(run.source).code[run.pc + 1] == Instr::Divide,
    ensures
        outcome(settle(run)) == Some(Err::<u64, EvalError>(EvalError::DivisionByZero)),
        awaits(settle(run)) is None,
{
    let next = advance(run, run.stack.push(ZERO));
    assert(next.stack.last() == ZERO);
    assert(spec_is_zero(ZERO)) by (bit_vector);
    lemma_zero_divisor_ends_run(next);
}

/// The literal whose value a settled run asks for is a literal of the
/// grammar, and not textually zero.
pub proof fn lemma_asked_literal(run: Run)
    requires
        settle(run) == run,
        run.source.len() <= usize::MAX,
    ensures
        awaits(run) matches Some(RequestView::Literal(text)) ==> is_literal(text)
            && !is_zero_literal(text),
{
    let code = program(run.source).code;
    lemma_program_sound(run.source);
    if !run.halted && 0 <= run.pc < code.len() {
        match code[run.pc] {
            Instr::Number { start, end } => {
                lemma_scanned_is_literal(run.source, start as int);
                lemma_settle_forward(advance(run, run.stack.push(ZERO)));
            },
            _ => {},
        }
    }
}

/// A settled run never asks for a quotient whose divisor is zero.
pub proof fn lemma_no_quotient_by_zero(run: Run)
    requires
        settle(run) == run,
    ensures
        awaits(run) matches Some(RequestView::Divide(dividend, divisor)) ==> !spec_is_zero(
            divisor,
        ),
{
}

/// The run of `source` after the answers `answers`, one after the other.
/// Answers that come after the run has ended change nothing.
pub open spec fn replay(source: Seq<char>, answers: Seq<u64>) -> Run
    decreases answers.len(),
{
    if answers.len() == 0 {
        settle(initial(source))
    } else {
        resume(replay(source, answers.drop_last()), answers.last())
    }
}

/// Every run that an evaluation goes through is consistent.
pub proof fn lemma_replay_consistent(source: Seq<char>, answers: Seq<u64>)
    ensures
        consistent(replay(source, answers)),
        replay(source, answers).source == source,
    decreases answers.len(),
{
    if answers.len() == 0 {
        assert(depth(program(source).code, 0) == 0);
        lemma_settle_consistent(initial(source));
        lemma_settle_forward(initial(source));
    } else {
        let before = replay(source, answers.drop_last());
        lemma_replay_consistent(source, answers.drop_last());
        lemma_resume_consistent(before, answers.last());
        lemma_resume_forward(before, answers.last());
    }
}

/// An answer leaves the source of a run as it was, and takes a run that
/// waited past the instruction it waited at.
pub proof fn lemma_resume_forward(run: Run, bits: u64)
    ensures
        resume(run, bits).source == run.source,
        resume(run, bits).pc >= run.pc,
        awaits(run) is Some ==> resume(run, bits).pc > run.pc,
{
    let code = program(run.source).code;
    if !run.halted && 0 <= run.pc < code.len() {
        lemma_settle_forward(advance(run, run.stack.push(bits)));
        lemma_settle_forward(advance(run, run.stack.drop_last().drop_last().push(bits)));
    }
}

/// An evaluation asks for no more arithmetic than its code has
/// instructions: after as many answers, it has ended.
pub proof fn lemma_replay_ends(source: Seq<char>, answers: Seq<u64>)
    ensures
        replay(source, answers).pc >= answers.len() || outcome(replay(source, answers)) is Some,
        answers.len() >= program(source).code.len() ==> outcome(replay(source, answers)) is Some,
    decreases answers.len(),
{
    lemma_replay_consistent(source, answers);
    if answers.len() > 0 {
        let before = replay(source, answers.drop_last());
        lemma_replay_ends(source, answers.drop_last());
        lemma_replay_consistent(source, answers.drop_last());
        lemma_resume_forward(before, answers.last());
        lemma_settle_forward(before);
    }
}

/// The evaluation of one expression.
pub struct Evaluation {
    source: Vec<char>,
    code: Vec<Instr>,
    fault: Option<EvalError>,
    pc: usize,
    stack: Vec<u64>,
    halted: bool,
}

impl View for Evaluation {
    type V = Run;

    closed spec fn view(&self) -> Run {
        Run { source: self.source@, pc: self.pc as int, stack: self.stack@, halted: self.halted }
    }
}

impl Evaluation {
    /// The code and the fault are those of the source, and the cursor and
    /// the stack fit the code.
    closed spec fn compiled(&self) -> bool {
        &&& self.code@ == program(self.source@).code
        &&& self.fault == program(self.source@).fault
        &&& self.pc <= self.code.len()
        &&& self.stack.len() == depth(self.code@, self.pc as int)
    }

    /// The invariant of the type.
    pub closed spec fn wf(&self) -> bool {
        self.compiled() && consistent(self@)
    }

    /// An evaluation that is in order is in a consistent run.
    pub proof fn lemma_wf(&self)
        requires
            self.wf(),
        ensures
            consistent(self@),
            self@.source.len() <= usize::MAX,
    {
        assert(self.source@.len() == self.source.len());
    }

    /// Goes on over what needs no arithmetic.
    fn settle(&mut self)
        requires
            old(self).compiled(),
        ensures
            final(self).wf(),
            final(self)@ == settle(old(self)@),
    {
        proof {
            lemma_program_sound(self.source@);
        }
        let mut moving = true;
        while moving
            invariant
                self.compiled(),
                self.source == old(self).source,
                stack_safe(self.code@),
                spans_inside(self.code@, self.source.len() as int),
                settle(self@) == settle(old(self)@),
                !moving ==> settle(self@) == self@,
            decreases self.code.len() - self.pc + if moving { 1int } else { 0int },
        {
            if self.halted || self.pc >= self.code.len() {
                moving = false;
            } else {
                assert(depth(self.code@, self.pc + 1) == depth(self.code@, self.pc as int)
                    + delta(self.code@[self.pc as int]));
                match self.code[self.pc] {
                    Instr::Number { start, end } => {
                        let text = slice_subrange(self.source.as_slice(), start, end);
                        if zero_literal(text) {
                            self.stack.push(ZERO);
                            self.pc += 1;
                        } else {
                            moving = false;
                        }
                    },
                    Instr::Negate => {
                        let top = self.stack.pop().unwrap();
                        self.stack.push(negate(top));
                        self.pc += 1;
                    },
                    Instr::Divide => {
                        if is_zero(self.stack[self.stack.len() - 1]) {
                            self.halted = true;
                        }
                        moving = false;
                    },
                    _ => {
                        moving = false;
                    },
                }
            }
        }
    }

    /// Starts the evaluation of `expression`: normalizes and compiles it,
    /// and goes as far as needs no arithmetic.
    pub fn start(expression: &str) -> (evaluation: Evaluation)
        ensures
            evaluation.wf(),
            evaluation@ == settle(initial(normalized(expression@))),
    {
        let chars = to_chars(expression);
        Evaluation::over(chars.as_slice())
    }

    /// Starts the evaluation of the expression that `chars` spells.
    pub fn over(chars: &[char]) -> (evaluation: Evaluation)
        ensures
            evaluation.wf(),
            evaluation@ == settle(initial(normalized(chars@))),
    {
        let source = normalize(chars);
        let (code, fault) = compile(source.as_slice());
        let mut evaluation = Evaluation {
            source,
            code,
            fault,
            pc: 0,
            stack: Vec::new(),
            halted: false,
        };
        evaluation.settle();
        evaluation
    }

    /// The arithmetic that the evaluation waits for; `None` once it has
    /// ended. A literal that is asked for is one of the grammar, and
    /// a divisor is not zero.
    pub fn request(&self) -> (request: Option<Request>)
        requires
            self.wf(),
        ensures
            view_of(request) == awaits(self@),
            request is None <==> outcome(self@) is Some,
            request matches Some(Request::Literal(text)) ==> is_literal(text@),
            request matches Some(Request::Divide(dividend, divisor)) ==> !spec_is_zero(divisor),
    {
        proof {
            assert(self.source@.len() == self.source.len());
            lemma_program_sound(self.source@);
            lemma_asked_literal(self@);
            lemma_no_quotient_by_zero(self@);
        }
        if self.halted || self.pc >= self.code.len() {
            return None;
        }
        proof {
            lemma_settle_forward(self@);
        }
        let n = self.stack.len();
        match self.code[self.pc] {
            Instr::Number { start, end } => {
                let text = slice_subrange(self.source.as_slice(), start, end);
                Some(Request::Literal(to_string(text)))
            },
            Instr::Negate => None,
            Instr::Add => Some(Request::Add(self.stack[n - 2], self.stack[n - 1])),
            Instr::Subtract => Some(Request::Subtract(self.stack[n - 2], self.stack[n - 1])),
            Instr::Multiply => Some(Request::Multiply(self.stack[n - 2], self.stack[n - 1])),
            Instr::Divide => Some(Request::Divide(self.stack[n - 2], self.stack[n - 1])),
        }
    }

    /// Takes `bits` as the answer to what the evaluation waits for, and
    /// goes on. An evaluation that has ended stays as it is.
    pub fn supply(&mut self, bits: u64)
        requires
            old(self).wf(),
        ensures
            final(self).wf(),
            final(self)@ == resume(old(self)@, bits),
    {
        proof {
            lemma_program_sound(self.source@);
        }
        if self.halted || self.pc >= self.code.len() {
            return ;
        }
        assert(depth(self.code@, self.pc + 1) == depth(self.code@, self.pc as int)
            + delta(self.code@[self.pc as int]));
        proof {
            lemma_settle_forward(self@);
        }
        match self.code[self.pc] {
            Instr::Number { .. } => {},
            Instr::Negate => {
                return ;
            },
            _ => {
                self.stack.pop();
                self.stack.pop();
            },
        }
        self.stack.push(bits);
        self.pc += 1;
        self.settle();
    }

    /// How the evaluation ended; `None` while it waits for arithmetic.
    pub fn outcome(&self) -> (result: Option<Result<u64, EvalError>>)
        requires
            self.wf(),
        ensures
            result == outcome(self@),
    {
        if self.halted {
            Some(Err(EvalError::DivisionByZero))
        } else if self.pc >= self.code.len() {
            match self.fault {
                Some(e) => Some(Err(e)),
                None => {
                    if self.stack.len() == 0 {
                        Some(Ok(ZERO))
                    } else {
                        Some(Ok(self.stack[self.stack.len() - 1]))
                    }
                },
            }
        } else {
            None
        }
    }
}

} // verus!
