//! What an expression is worth.
//!
//! The value of an expression depends on the arithmetic alone: on what the
//! caller answers to each request. For every such arithmetic, this module
//! says what each rule of the grammar is worth, the way a recursive-descent
//! evaluator computes it: operators apply as soon as their right operand is
//! read, from left to right, and the first error in reading order ends the
//! evaluation. [`lemma_evaluation_means_value`] shows that an evaluation
//! whose requests are answered by the arithmetic ends with that value.

use vstd::prelude::*;
use crate::arithmetic::RequestView;
use crate::error::EvalError;
use crate::evaluation::{
    advance, awaits, consistent, fits, initial, is_zero_literal, lemma_resume_consistent,
    lemma_resume_forward, lemma_settle_consistent, lemma_settle_forward, literal_text, outcome,
    resume, settle, Run,
};
use crate::ieee::{spec_is_zero, spec_negate, ZERO};
use crate::postfix::{delta, depth, needs, Instr};
use crate::syntax::{
    advanced, broken, ends_open, expression, expression_tail, factor, joined,
    lemma_factor_sound, lemma_program_sound, lemma_term_sound, lemma_unsigned_sound, number,
    program, term, term_tail, unsigned, Parse,
};

verus! {

/// The value of the literal `text`: zero if it is textually zero, else
/// what the arithmetic answers.
pub open spec fn literal_value(f: spec_fn(RequestView) -> u64, text: Seq<char>) -> u64 {
    if is_zero_literal(text) {
        ZERO
    } else {
        f(RequestView::Literal(text))
    }
}

/// The request that the binary instruction `op` makes for the operands
/// `lower` and `upper`.
pub open spec fn request_of(op: Instr, lower: u64, upper: u64) -> RequestView {
    match op {
        Instr::Add => RequestView::Add(lower, upper),
        Instr::Subtract => RequestView::Subtract(lower, upper),
        Instr::Multiply => RequestView::Multiply(lower, upper),
        _ => RequestView::Divide(lower, upper),
    }
}

/// What `lower op upper` is worth: what the arithmetic answers, but an
/// error for a division by zero.
pub open spec fn applied(
    f: spec_fn(RequestView) -> u64,
    op: Instr,
    lower: u64,
    upper: u64,
) -> Result<u64, EvalError> {
    if op == Instr::Divide && spec_is_zero(upper) {
        Err(EvalError::DivisionByZero)
    } else {
        Ok(f(request_of(op, lower, upper)))
    }
}

/// What the rule `literal` is worth at `pos`.
pub open spec fn unsigned_value(f: spec_fn(RequestView) -> u64, s: Seq<char>, pos: int) -> Result<
    u64,
    EvalError,
> {
    match unsigned(s, pos).fault {
        Some(e) => Err(e),
        None => Ok(literal_value(f, s.subrange(pos, unsigned(s, pos).next))),
    }
}

/// What the rule `number` is worth at `pos`: what its literal is worth,
/// negated once if a minus sign stands before it.
pub open spec fn number_value(f: spec_fn(RequestView) -> u64, s: Seq<char>, pos: int) -> Result<
    u64,
    EvalError,
> {
    if 0 <= pos < s.len() && s[pos] == '-' {
        match unsigned_value(f, s, pos + 1) {
            Err(e) => Err(e),
            Ok(v) => Ok(spec_negate(v)),
        }
    } else {
        unsigned_value(f, s, pos)
    }
}

/// What the rule `factor` is worth at `pos`.
pub open spec fn factor_value(f: spec_fn(RequestView) -> u64, s: Seq<char>, pos: int) -> Result<
    u64,
    EvalError,
>
    decreases s.len() - pos, 0int,
{
    if pos < 0 || pos >= s.len() {
        Err(EvalError::UnexpectedEndOfExpression)
    } else if s[pos] == '(' {
        match expression_value(f, s, pos + 1) {
            Err(e) => Err(e),
            Ok(v) => {
                let close = expression(s, pos + 1).next;
                if 0 <= close < s.len() && s[close] == ')' {
                    Ok(v)
                } else {
                    Err(EvalError::UnbalancedParenthesis)
                }
            },
        }
    } else if s[pos] == '-' {
        match factor_value(f, s, pos + 1) {
            Err(e) => Err(e),
            Ok(v) => Ok(spec_negate(v)),
        }
    } else if s[pos] == '+' {
        factor_value(f, s, pos + 1)
    } else {
        number_value(f, s, pos)
    }
}

/// What a `term` is worth whose factors up to `at` are worth `left`.
pub open spec fn term_tail_value(
    f: spec_fn(RequestView) -> u64,
    s: Seq<char>,
    at: int,
    left: u64,
) -> Result<u64, EvalError>
    decreases s.len() - at, 1int,
{
    if 0 <= at < s.len() && (s[at] == '*' || s[at] == '/') {
        let op = if s[at] == '*' {
            Instr::Multiply
        } else {
            Instr::Divide
        };
        match factor_value(f, s, at + 1) {
            Err(e) => Err(e),
            Ok(right) => match applied(f, op, left, right) {
                Err(e) => Err(e),
                Ok(v) => {
                    if advanced(s, at + 1, factor(s, at + 1)) {
                        term_tail_value(f, s, factor(s, at + 1).next, v)
                    } else {
                        Ok(v)
                    }
                },
            },
        }
    } else {
        Ok(left)
    }
}

/// What the rule `term` is worth at `pos`.
pub open spec fn term_value(f: spec_fn(RequestView) -> u64, s: Seq<char>, pos: int) -> Result<
    u64,
    EvalError,
>
    decreases s.len() - pos, 2int,
{
    match factor_value(f, s, pos) {
        Err(e) => Err(e),
        Ok(v) => {
            if advanced(s, pos, factor(s, pos)) {
                term_tail_value(f, s, factor(s, pos).next, v)
            } else {
                Ok(v)
            }
        },
    }
}

/// What an `expression` is worth whose terms up to `at` are worth `left`.
pub open spec fn expression_tail_value(
    f: spec_fn(RequestView) -> u64,
    s: Seq<char>,
    at: int,
    left: u64,
) -> Result<u64, EvalError>
    decreases s.len() - at, 3int,
{
    if 0 <= at < s.len() && (s[at] == '+' || s[at] == '-') {
        let op = if s[at] == '+' {
            Instr::Add
        } else {
            Instr::Subtract
        };
        match term_value(f, s, at + 1) {
            Err(e) => Err(e),
            Ok(right) => match applied(f, op, left, right) {
                Err(e) => Err(e),
                Ok(v) => {
                    if advanced(s, at + 1, term(s, at + 1)) {
                        expression_tail_value(f, s, term(s, at + 1).next, v)
                    } else {
                        Ok(v)
                    }
                },
            },
        }
    } else {
        Ok(left)
    }
}

/// What the rule `expression` is worth at `pos`.
pub open spec fn expression_value(f: spec_fn(RequestView) -> u64, s: Seq<char>, pos: int) -> Result<
    u64,
    EvalError,
>
    decreases s.len() - pos, 4int,
{
    match term_value(f, s, pos) {
        Err(e) => Err(e),
        Ok(v) => {
            if advanced(s, pos, term(s, pos)) {
                expression_tail_value(f, s, term(s, pos).next, v)
            } else {
                Ok(v)
            }
        },
    }
}

/// What the normalized source `s` is worth under the arithmetic `f`: zero
/// if it is empty; an error if it is incomplete; else what the rule
/// `expression` is worth from its start, if that uses all of `s`.
pub open spec fn value_of(f: spec_fn(RequestView) -> u64, s: Seq<char>) -> Result<u64, EvalError> {
    if s.len() == 0 {
        Ok(ZERO)
    } else if ends_open(s) {
        Err(EvalError::IncompleteExpression)
    } else {
        match expression_value(f, s, 0) {
            Err(e) => Err(e),
            Ok(v) => {
                if expression(s, 0).next < s.len() {
                    Err(EvalError::UnexpectedCharacter)
                } else {
                    Ok(v)
                }
            },
        }
    }
}

/// A division by a divisor that is worth zero, positive or negative, is
/// an error, whatever the arithmetic and whatever is divided.
pub proof fn lemma_division_by_zero(
    f: spec_fn(RequestView) -> u64,
    s: Seq<char>,
    at: int,
    left: u64,
)
    requires
        0 <= at < s.len(),
        s[at] == '/',
        factor_value(f, s, at + 1) matches Ok(divisor) && spec_is_zero(divisor),
    ensures
        term_tail_value(f, s, at, left) == Err::<u64, EvalError>(EvalError::DivisionByZero),
{
}

/// A division by a literal that is textually zero is an error, whatever
/// the arithmetic and whatever is divided.
pub proof fn lemma_division_by_zero_literal(
    f: spec_fn(RequestView) -> u64,
    s: Seq<char>,
    at: int,
    left: u64,
)
    requires
        0 <= at,
        at + 1 < s.len(),
        s[at] == '/',
        crate::syntax::spec_is_digit(s[at + 1]),
        unsigned(s, at + 1).fault is None,
        is_zero_literal(s.subrange(at + 1, unsigned(s, at + 1).next)),
    ensures
        term_tail_value(f, s, at, left) == Err::<u64, EvalError>(EvalError::DivisionByZero),
{
    assert(spec_is_zero(ZERO)) by (bit_vector);
    assert(factor_value(f, s, at + 1) == Ok::<u64, EvalError>(ZERO));
    lemma_division_by_zero(f, s, at, left);
}

/// The stack after one instruction, or `None` for a division by zero.
pub open spec fn step(
    f: spec_fn(RequestView) -> u64,
    source: Seq<char>,
    instr: Instr,
    stack: Seq<u64>,
) -> Option<Seq<u64>> {
    match instr {
        Instr::Number { start, end } => Some(
            stack.push(literal_value(f, literal_text(source, start, end))),
        ),
        Instr::Negate => Some(stack.drop_last().push(spec_negate(stack.last()))),
        op => match applied(f, op, stack.drop_last().last(), stack.last()) {
            Err(_) => None,
            Ok(v) => Some(stack.drop_last().drop_last().push(v)),
        },
    }
}

/// The stack after `code`, or `None` if a division by zero ends it.
pub open spec fn run_code(
    f: spec_fn(RequestView) -> u64,
    source: Seq<char>,
    code: Seq<Instr>,
    stack: Seq<u64>,
) -> Option<Seq<u64>>
    decreases code.len(),
{
    if code.len() == 0 {
        Some(stack)
    } else {
        match run_code(f, source, code.drop_last(), stack) {
            None => None,
            Some(before) => step(f, source, code.last(), before),
        }
    }
}

/// Running `a + b` is running `a` and then `b`.
pub proof fn lemma_run_concat(
    f: spec_fn(RequestView) -> u64,
    source: Seq<char>,
    a: Seq<Instr>,
    b: Seq<Instr>,
    stack: Seq<u64>,
)
    ensures
        run_code(f, source, a + b, stack) == match run_code(f, source, a, stack) {
            None => None,
            Some(between) => run_code(f, source, b, between),
        },
    decreases b.len(),
{
    if b.len() == 0 {
        assert(a + b == a);
    } else {
        lemma_run_concat(f, source, a, b.drop_last(), stack);
        assert((a + b).drop_last() == a + b.drop_last());
        assert((a + b).last() == b.last());
    }
}

/// Running one instruction more is a step from where the code before it
/// ended.
pub proof fn lemma_run_push(
    f: spec_fn(RequestView) -> u64,
    source: Seq<char>,
    a: Seq<Instr>,
    i: Instr,
    stack: Seq<u64>,
)
    ensures
        run_code(f, source, a.push(i), stack) == match run_code(f, source, a, stack) {
            None => None,
            Some(between) => step(f, source, i, between),
        },
{
    assert(a.push(i).drop_last() == a);
}

/// How a parse and a value go together, on a stack: a value is what the
/// code of the parse, which has no fault, puts on the stack; a division by
/// zero ends the code; any other error is the fault of the parse, whose
/// code runs to its end.
pub open spec fn means(
    f: spec_fn(RequestView) -> u64,
    source: Seq<char>,
    p: Parse,
    value: Result<u64, EvalError>,
    stack: Seq<u64>,
) -> bool {
    match value {
        Ok(v) => p.fault is None && run_code(f, source, p.code, stack) == Some(stack.push(v)),
        Err(EvalError::DivisionByZero) => run_code(f, source, p.code, stack) is None,
        Err(e) => p.fault == Some(e) && run_code(f, source, p.code, stack) is Some,
    }
}

/// The code of the rest of a `term` starts with the code before it.
pub proof fn lemma_term_tail_extends(s: Seq<char>, done: Parse)
    ensures
        term_tail(s, done).code.len() >= done.code.len(),
        term_tail(s, done).code.take(done.code.len() as int) == done.code,
    decreases s.len() - done.next, 1int,
{
    if 0 <= done.next < s.len() && (s[done.next] == '*' || s[done.next] == '/') {
        let operand = factor(s, done.next + 1);
        let op = if s[done.next] == '*' {
            Instr::Multiply
        } else {
            Instr::Divide
        };
        if advanced(s, done.next + 1, operand) {
            let next = joined(done, operand, op);
            lemma_term_tail_extends(s, next);
            assert(term_tail(s, done).code.take(done.code.len() as int) == term_tail(
                s,
                done,
            ).code.take(next.code.len() as int).take(done.code.len() as int));
            assert(next.code.take(done.code.len() as int) == done.code);
        } else {
            assert((done.code + operand.code).take(done.code.len() as int) == done.code);
        }
    } else {
        assert(done.code.take(done.code.len() as int) == done.code);
    }
}

/// The code of the rest of an `expression` starts with the code before it.
pub proof fn lemma_expression_tail_extends(s: Seq<char>, done: Parse)
    ensures
        expression_tail(s, done).code.len() >= done.code.len(),
        expression_tail(s, done).code.take(done.code.len() as int) == done.code,
    decreases s.len() - done.next, 3int,
{
    if 0 <= done.next < s.len() && (s[done.next] == '+' || s[done.next] == '-') {
        let operand = term(s, done.next + 1);
        let op = if s[done.next] == '+' {
            Instr::Add
        } else {
            Instr::Subtract
        };
        if advanced(s, done.next + 1, operand) {
            let next = joined(done, operand, op);
            lemma_expression_tail_extends(s, next);
            assert(expression_tail(s, done).code.take(done.code.len() as int)
                == expression_tail(s, done).code.take(next.code.len() as int).take(
                done.code.len() as int,
            ));
            assert(next.code.take(done.code.len() as int) == done.code);
        } else {
            assert((done.code + operand.code).take(done.code.len() as int) == done.code);
        }
    } else {
        assert(done.code.take(done.code.len() as int) == done.code);
    }
}

/// A division by zero in the first instructions of a code ends the code.
pub proof fn lemma_run_prefix_ends(
    f: spec_fn(RequestView) -> u64,
    source: Seq<char>,
    code: Seq<Instr>,
    k: int,
    stack: Seq<u64>,
)
    requires
        0 <= k <= code.len(),
        run_code(f, source, code.take(k), stack) is None,
    ensures
        run_code(f, source, code, stack) is None,
{
    assert(code == code.take(k) + code.skip(k));
    lemma_run_concat(f, source, code.take(k), code.skip(k), stack);
}

/// The code of the rule `literal` means what the rule is worth.
pub proof fn lemma_unsigned_meaning(
    f: spec_fn(RequestView) -> u64,
    s: Seq<char>,
    pos: int,
    stack: Seq<u64>,
)
    requires
        0 <= pos <= s.len() <= usize::MAX,
    ensures
        means(f, s, unsigned(s, pos), unsigned_value(f, s, pos), stack),
{
    let n = unsigned(s, pos);
    lemma_unsigned_sound(s, pos);
    if n.fault is None {
        let i = Instr::Number { start: pos as usize, end: n.next as usize };
        assert(n.code == Seq::<Instr>::empty().push(i));
        lemma_run_push(f, s, Seq::<Instr>::empty(), i, stack);
    }
}

/// The code of the rule `number` means what the rule is worth.
pub proof fn lemma_number_meaning(
    f: spec_fn(RequestView) -> u64,
    s: Seq<char>,
    pos: int,
    stack: Seq<u64>,
)
    requires
        0 <= pos <= s.len() <= usize::MAX,
    ensures
        means(f, s, number(s, pos), number_value(f, s, pos), stack),
{
    if pos < s.len() && s[pos] == '-' {
        lemma_unsigned_meaning(f, s, pos + 1, stack);
        let literal = unsigned(s, pos + 1);
        lemma_run_push(f, s, literal.code, Instr::Negate, stack);
        match unsigned_value(f, s, pos + 1) {
            Ok(v) => {
                assert(stack.push(v).drop_last() == stack);
            },
            Err(_) => {},
        }
    } else {
        lemma_unsigned_meaning(f, s, pos, stack);
    }
}

/// The code of the rule `factor` means what the rule is worth.
pub proof fn lemma_factor_meaning(
    f: spec_fn(RequestView) -> u64,
    s: Seq<char>,
    pos: int,
    stack: Seq<u64>,
)
    requires
        0 <= pos <= s.len() <= usize::MAX,
    ensures
        means(f, s, factor(s, pos), factor_value(f, s, pos), stack),
    decreases s.len() - pos, 0int,
{
    if pos >= s.len() {
    } else if s[pos] == '(' {
        lemma_expression_meaning(f, s, pos + 1, stack);
    } else if s[pos] == '-' {
        lemma_factor_meaning(f, s, pos + 1, stack);
        let operand = factor(s, pos + 1);
        lemma_run_push(f, s, operand.code, Instr::Negate, stack);
        match factor_value(f, s, pos + 1) {
            Ok(v) => {
                assert(stack.push(v).drop_last() == stack);
            },
            Err(_) => {},
        }
    } else if s[pos] == '+' {
        lemma_factor_meaning(f, s, pos + 1, stack);
    } else {
        lemma_number_meaning(f, s, pos, stack);
    }
}

/// What `means` asks of a binary operator after its operands.
proof fn lemma_join_meaning(
    f: spec_fn(RequestView) -> u64,
    s: Seq<char>,
    done: Parse,
    operand: Parse,
    op: Instr,
    left: u64,
    right: Result<u64, EvalError>,
    stack: Seq<u64>,
)
    requires
        op == Instr::Add || op == Instr::Subtract || op == Instr::Multiply || op == Instr::Divide,
        run_code(f, s, done.code, stack) == Some(stack.push(left)),
        means(f, s, operand, right, stack.push(left)),
    ensures
        right matches Err(e) ==> means(
            f,
            s,
            broken(done, operand),
            Err(e),
            stack,
        ),
        right matches Ok(v) ==> run_code(f, s, (done.code + operand.code).push(op), stack)
            == match applied(f, op, left, v) {
            Ok(w) => Some(stack.push(w)),
            Err(_) => None,
        },
        right == Err::<u64, EvalError>(EvalError::DivisionByZero) ==> run_code(
            f,
            s,
            (done.code + operand.code).push(op),
            stack,
        ) is None,
{
    lemma_run_concat(f, s, done.code, operand.code, stack);
    lemma_run_push(f, s, done.code + operand.code, op, stack);
    match right {
        Ok(v) => {
            let both = stack.push(left).push(v);
            assert(both.drop_last() == stack.push(left));
            assert(both.drop_last().drop_last() == stack);
        },
        Err(_) => {},
    }
}

/// The code of the rest of a `term` means what the rest is worth.
pub proof fn lemma_term_tail_meaning(
    f: spec_fn(RequestView) -> u64,
    s: Seq<char>,
    done: Parse,
    left: u64,
    stack: Seq<u64>,
)
    requires
        0 <= done.next <= s.len() <= usize::MAX,
        done.fault is None,
        run_code(f, s, done.code, stack) == Some(stack.push(left)),
    ensures
        means(f, s, term_tail(s, done), term_tail_value(f, s, done.next, left), stack),
    decreases s.len() - done.next, 1int,
{
    let at = done.next;
    if at < s.len() && (s[at] == '*' || s[at] == '/') {
        let operand = factor(s, at + 1);
        let op = if s[at] == '*' {
            Instr::Multiply
        } else {
            Instr::Divide
        };
        let right = factor_value(f, s, at + 1);
        lemma_factor_meaning(f, s, at + 1, stack.push(left));
        lemma_factor_sound(s, at + 1);
        lemma_join_meaning(f, s, done, operand, op, left, right, stack);
        let next = joined(done, operand, op);
        if advanced(s, at + 1, operand) {
            lemma_term_tail_extends(s, next);
            match right {
                Ok(v) => match applied(f, op, left, v) {
                    Ok(w) => {
                        lemma_term_tail_meaning(f, s, next, w, stack);
                    },
                    Err(_) => {
                        lemma_run_prefix_ends(
                            f,
                            s,
                            term_tail(s, next).code,
                            next.code.len() as int,
                            stack,
                        );
                    },
                },
                Err(_) => {
                    lemma_run_prefix_ends(
                        f,
                        s,
                        term_tail(s, next).code,
                        next.code.len() as int,
                        stack,
                    );
                },
            }
        }
    }
}

/// The code of the rule `term` means what the rule is worth.
pub proof fn lemma_term_meaning(
    f: spec_fn(RequestView) -> u64,
    s: Seq<char>,
    pos: int,
    stack: Seq<u64>,
)
    requires
        0 <= pos <= s.len() <= usize::MAX,
    ensures
        means(f, s, term(s, pos), term_value(f, s, pos), stack),
    decreases s.len() - pos, 2int,
{
    let first = factor(s, pos);
    lemma_factor_meaning(f, s, pos, stack);
    lemma_factor_sound(s, pos);
    if advanced(s, pos, first) {
        lemma_term_tail_extends(s, first);
        match factor_value(f, s, pos) {
            Ok(v) => {
                lemma_term_tail_meaning(f, s, first, v, stack);
            },
            Err(_) => {
                lemma_run_prefix_ends(
                    f,
                    s,
                    term_tail(s, first).code,
                    first.code.len() as int,
                    stack,
                );
            },
        }
    }
}

/// The code of the rest of an `expression` means what the rest is worth.
pub proof fn lemma_expression_tail_meaning(
    f: spec_fn(RequestView) -> u64,
    s: Seq<char>,
    done: Parse,
    left: u64,
    stack: Seq<u64>,
)
    requires
        0 <= done.next <= s.len() <= usize::MAX,
        done.fault is None,
        run_code(f, s, done.code, stack) == Some(stack.push(left)),
    ensures
        means(f, s, expression_tail(s, done), expression_tail_value(f, s, done.next, left), stack),
    decreases s.len() - done.next, 3int,
{
    let at = done.next;
    if at < s.len() && (s[at] == '+' || s[at] == '-') {
        let operand = term(s, at + 1);
        let op = if s[at] == '+' {
            Instr::Add
        } else {
            Instr::Subtract
        };
        let right = term_value(f, s, at + 1);
        lemma_term_meaning(f, s, at + 1, stack.push(left));
        lemma_term_sound(s, at + 1);
        lemma_join_meaning(f, s, done, operand, op, left, right, stack);
        let next = joined(done, operand, op);
        if advanced(s, at + 1, operand) {
            lemma_expression_tail_extends(s, next);
            match right {
                Ok(v) => match applied(f, op, left, v) {
                    Ok(w) => {
                        lemma_expression_tail_meaning(f, s, next, w, stack);
                    },
                    Err(_) => {
                        lemma_run_prefix_ends(
                            f,
                            s,
                            expression_tail(s, next).code,
                            next.code.len() as int,
                            stack,
                        );
                    },
                },
                Err(_) => {
                    lemma_run_prefix_ends(
                        f,
                        s,
                        expression_tail(s, next).code,
                        next.code.len() as int,
                        stack,
                    );
                },
            }
        }
    }
}

/// The code of the rule `expression` means what the rule is worth.
pub proof fn lemma_expression_meaning(
    f: spec_fn(RequestView) -> u64,
    s: Seq<char>,
    pos: int,
    stack: Seq<u64>,
)
    requires
        0 <= pos <= s.len() <= usize::MAX,
    ensures
        means(f, s, expression(s, pos), expression_value(f, s, pos), stack),
    decreases s.len() - pos, 4int,
{
    let first = term(s, pos);
    lemma_term_meaning(f, s, pos, stack);
    lemma_term_sound(s, pos);
    if advanced(s, pos, first) {
        lemma_expression_tail_extends(s, first);
        match term_value(f, s, pos) {
            Ok(v) => {
                lemma_expression_tail_meaning(f, s, first, v, stack);
            },
            Err(_) => {
                lemma_run_prefix_ends(
                    f,
                    s,
                    expression_tail(s, first).code,
                    first.code.len() as int,
                    stack,
                );
            },
        }
    }
}

/// What the outcome of a run is, given the fault of its source and the
/// stack that its code leaves.
pub open spec fn verdict_of(fault: Option<EvalError>, stack: Option<Seq<u64>>) -> Result<
    u64,
    EvalError,
> {
    match stack {
        None => Err(EvalError::DivisionByZero),
        Some(values) => match fault {
            Some(e) => Err(e),
            None => Ok(
                if values.len() == 0 {
                    ZERO
                } else {
                    values.last()
                },
            ),
        },
    }
}

/// The code of a source means what the source is worth.
pub proof fn lemma_program_meaning(f: spec_fn(RequestView) -> u64, s: Seq<char>)
    requires
        s.len() <= usize::MAX,
    ensures
        verdict_of(program(s).fault, run_code(f, s, program(s).code, Seq::empty())) == value_of(
            f,
            s,
        ),
{
    if s.len() > 0 && !ends_open(s) {
        lemma_expression_meaning(f, s, 0, Seq::empty());
        match expression_value(f, s, 0) {
            Ok(v) => {
                assert(Seq::<u64>::empty().push(v).last() == v);
            },
            Err(_) => {},
        }
    }
}

/// The run after the arithmetic `f` has answered what it waited for.
pub open spec fn answered(f: spec_fn(RequestView) -> u64, run: Run) -> Run {
    match awaits(run) {
        Some(request) => resume(run, f(request)),
        None => run,
    }
}

/// The run after the arithmetic `f` has answered `rounds` times.
pub open spec fn complete(f: spec_fn(RequestView) -> u64, run: Run, rounds: nat) -> Run
    decreases rounds,
{
    if rounds == 0 {
        run
    } else {
        complete(f, answered(f, run), (rounds - 1) as nat)
    }
}

/// Whether the stack of the run is what its code before the cursor leaves
/// under the arithmetic `f`; for a run that a division by zero has ended,
/// whether such a division is what the cursor stands at.
pub open spec fn tracks(f: spec_fn(RequestView) -> u64, run: Run) -> bool {
    let code = program(run.source).code;
    if run.halted {
        run.pc < code.len() && run_code(f, run.source, code.take(run.pc + 1), Seq::empty()) is None
    } else {
        run_code(f, run.source, code.take(run.pc), Seq::empty()) == Some(run.stack)
    }
}

/// Settling keeps the stack in step with the code.
pub proof fn lemma_settle_tracks(f: spec_fn(RequestView) -> u64, run: Run)
    requires
        fits(run),
        tracks(f, run),
        run.source.len() <= usize::MAX,
    ensures
        tracks(f, settle(run)),
    decreases program(run.source).code.len() - run.pc,
{
    let code = program(run.source).code;
    lemma_program_sound(run.source);
    if !run.halted && run.pc < code.len() {
        assert(depth(code, run.pc) >= needs(code[run.pc]));
        assert(depth(code, run.pc + 1) == depth(code, run.pc) + delta(code[run.pc]));
        assert(code.take(run.pc + 1) == code.take(run.pc).push(code[run.pc]));
        lemma_run_push(f, run.source, code.take(run.pc), code[run.pc], Seq::empty());
        match code[run.pc] {
            Instr::Number { start, end } => {
                if is_zero_literal(literal_text(run.source, start, end)) {
                    lemma_settle_tracks(f, advance(run, run.stack.push(ZERO)));
                }
            },
            Instr::Negate => {
                lemma_settle_tracks(
                    f,
                    advance(run, run.stack.drop_last().push(spec_negate(run.stack.last()))),
                );
            },
            _ => {},
        }
    }
}

/// An answer of the arithmetic keeps the stack in step with the code.
pub proof fn lemma_answered_tracks(f: spec_fn(RequestView) -> u64, run: Run)
    requires
        consistent(run),
        tracks(f, run),
        run.source.len() <= usize::MAX,
    ensures
        consistent(answered(f, run)),
        tracks(f, answered(f, run)),
        answered(f, run).source == run.source,
        awaits(run) is Some ==> answered(f, run).pc > run.pc,
{
    let code = program(run.source).code;
    lemma_program_sound(run.source);
    match awaits(run) {
        Some(request) => {
            let bits = f(request);
            lemma_resume_consistent(run, bits);
            lemma_resume_forward(run, bits);
            assert(depth(code, run.pc) >= needs(code[run.pc]));
            assert(depth(code, run.pc + 1) == depth(code, run.pc) + delta(code[run.pc]));
            assert(code.take(run.pc + 1) == code.take(run.pc).push(code[run.pc]));
            lemma_run_push(f, run.source, code.take(run.pc), code[run.pc], Seq::empty());
            match code[run.pc] {
                Instr::Number { .. } => {
                    lemma_settle_forward(advance(run, run.stack.push(ZERO)));
                    lemma_settle_tracks(f, advance(run, run.stack.push(bits)));
                },
                Instr::Negate => {},
                _ => {
                    lemma_settle_tracks(
                        f,
                        advance(run, run.stack.drop_last().drop_last().push(bits)),
                    );
                },
            }
        },
        None => {},
    }
}

/// A run that waits for nothing stays as it is.
proof fn lemma_complete_idle(f: spec_fn(RequestView) -> u64, run: Run, rounds: nat)
    requires
        awaits(run) is None,
    ensures
        complete(f, run, rounds) == run,
    decreases rounds,
{
    if rounds > 0 {
        lemma_complete_idle(f, run, (rounds - 1) as nat);
    }
}

/// A run whose stack is in step with its code ends, after as many answers
/// of the arithmetic as it has instructions left, with what its code
/// leaves.
proof fn lemma_complete_tracks(f: spec_fn(RequestView) -> u64, run: Run, rounds: nat)
    requires
        consistent(run),
        tracks(f, run),
        run.source.len() <= usize::MAX,
        rounds >= program(run.source).code.len() - run.pc,
    ensures
        outcome(complete(f, run, rounds)) == Some(
            verdict_of(
                program(run.source).fault,
                run_code(f, run.source, program(run.source).code, Seq::empty()),
            ),
        ),
    decreases rounds,
{
    let code = program(run.source).code;
    lemma_answered_tracks(f, run);
    lemma_settle_forward(run);
    if awaits(run) is Some {
        lemma_complete_tracks(f, answered(f, run), (rounds - 1) as nat);
    } else {
        lemma_complete_idle(f, run, rounds);
        if run.halted {
            lemma_run_prefix_ends(f, run.source, code, run.pc + 1, Seq::empty());
        } else {
            assert(code.take(run.pc) == code);
        }
    }
}

/// An evaluation whose requests are answered by an arithmetic ends with
/// what its expression is worth under that arithmetic. It ends after as
/// many answers as its code has instructions, at the latest, and its
/// outcome depends on nothing but the expression and the arithmetic.
pub proof fn lemma_evaluation_means_value(f: spec_fn(RequestView) -> u64, s: Seq<char>)
    requires
        s.len() <= usize::MAX,
    ensures
        outcome(complete(f, settle(initial(s)), program(s).code.len())) == Some(value_of(f, s)),
{
    let start = initial(s);
    assert(depth(program(s).code, 0) == 0);
    assert(program(s).code.take(0) == Seq::<Instr>::empty());
    lemma_settle_consistent(start);
    lemma_settle_tracks(f, start);
    lemma_settle_forward(start);
    lemma_complete_tracks(f, settle(start), program(s).code.len());
    lemma_program_meaning(f, s);
}

} // verus!
