//! A division by zero, wherever it stands.
//!
//! An expression without a fault that holds, anywhere, a division sign
//! before a literal that is textually zero is worth a division by zero,
//! whatever the arithmetic. The parser reads every character of such an
//! expression, so its code holds that literal right before a division; and
//! code that comes to divide by a zero literal ends there.

use vstd::prelude::*;
use crate::arithmetic::RequestView;
use crate::error::EvalError;
use crate::evaluation::{is_zero_literal, literal_text};
use crate::ieee::{spec_is_zero, ZERO};
use crate::meaning::{
    lemma_program_meaning, lemma_run_prefix_ends, lemma_run_push, run_code, value_of,
};
use crate::postfix::Instr;
use crate::session::Session;
use crate::settling::Arithmetic;
use crate::syntax::{
    advanced, digits_end, expression, expression_tail, factor, joined, lemma_digits_end,
    lemma_expression_sound, lemma_factor_sound, lemma_normalized_length, lemma_term_sound,
    lemma_unsigned_sound, normalized, program, spec_canonical, spec_is_blank, spec_is_digit,
    term, term_tail, unsigned, Parse,
};

verus! {

/// Whether a division sign stands at `at` and a digit behind it.
pub open spec fn divides_at(s: Seq<char>, at: int) -> bool {
    0 <= at && at + 1 < s.len() && s[at] == '/' && spec_is_digit(s[at + 1])
}

/// Whether a division sign stands at `at` and a literal behind it that is
/// textually zero.
pub open spec fn divides_by_zero_at(s: Seq<char>, at: int) -> bool {
    divides_at(s, at) && is_zero_literal(s.subrange(at + 1, unsigned(s, at + 1).next))
}

/// The instruction for the literal that stands behind `at`.
pub open spec fn divisor_at(s: Seq<char>, at: int) -> Instr {
    Instr::Number { start: (at + 1) as usize, end: unsigned(s, at + 1).next as usize }
}

/// Whether `code` holds the literal that stands behind `at`, and right
/// after it a division.
pub open spec fn holds_division(code: Seq<Instr>, s: Seq<char>, at: int) -> bool {
    exists|k: int|
        0 <= k && k + 1 < code.len() && #[trigger] code[k] == divisor_at(s, at) && code[k + 1]
            == Instr::Divide
}

/// A division that a code holds is held by every code that the code is a
/// part of.
proof fn lemma_holds_in_part(a: Seq<Instr>, b: Seq<Instr>, c: Seq<Instr>, s: Seq<char>, at: int)
    requires
        holds_division(b, s, at),
    ensures
        holds_division(a + b + c, s, at),
{
    let k = choose|k: int|
        0 <= k && k + 1 < b.len() && #[trigger] b[k] == divisor_at(s, at) && b[k + 1]
            == Instr::Divide;
    let whole = a + b + c;
    assert(whole[a.len() + k] == b[k]);
    assert(whole[a.len() + k + 1] == b[k + 1]);
}

/// What was parsed so far, an operand and the operator hold every division
/// that one of the two parts holds.
proof fn lemma_holds_in_joined(done: Parse, operand: Parse, op: Instr, s: Seq<char>, at: int)
    ensures
        holds_division(done.code, s, at) ==> holds_division(joined(done, operand, op).code, s, at),
        holds_division(operand.code, s, at) ==> holds_division(
            joined(done, operand, op).code,
            s,
            at,
        ),
{
    let code = joined(done, operand, op).code;
    let none = Seq::<Instr>::empty();
    if holds_division(done.code, s, at) {
        lemma_holds_in_part(none, done.code, operand.code.push(op), s, at);
        assert(code == none + done.code + operand.code.push(op));
    }
    if holds_division(operand.code, s, at) {
        lemma_holds_in_part(done.code, operand.code, seq![op], s, at);
        assert(code == done.code + operand.code + seq![op]);
    }
}

/// Between its start and its end, a run of digits holds digits.
proof fn lemma_digits_between(s: Seq<char>, pos: int, i: int)
    requires
        0 <= pos <= i < digits_end(s, pos),
    ensures
        spec_is_digit(s[i]),
        i < s.len(),
    decreases i - pos,
{
    if pos < s.len() && spec_is_digit(s[pos]) {
        if pos < i {
            lemma_digits_between(s, pos + 1, i);
        }
    }
}

/// No division sign stands inside a literal.
proof fn lemma_literal_holds_no_sign(s: Seq<char>, pos: int, at: int)
    requires
        0 <= pos <= s.len(),
        unsigned(s, pos).fault is None,
        pos <= at < unsigned(s, pos).next,
    ensures
        s[at] != '/',
{
    let int_end = digits_end(s, pos);
    lemma_digits_end(s, pos);
    if at < int_end {
        lemma_digits_between(s, pos, at);
    } else {
        let has_point = int_end < s.len() && s[int_end] == '.';
        let frac_end = if has_point {
            digits_end(s, int_end + 1)
        } else {
            int_end
        };
        if has_point {
            lemma_digits_end(s, int_end + 1);
        }
        if at < frac_end {
            if at > int_end {
                lemma_digits_between(s, int_end + 1, at);
            }
        } else {
            let has_sign = frac_end + 1 < s.len() && (s[frac_end + 1] == '+' || s[frac_end + 1]
                == '-');
            let exp_start = if has_sign {
                frac_end + 2
            } else {
                frac_end + 1
            };
            if at >= exp_start {
                lemma_digits_between(s, exp_start, at);
            }
        }
    }
}

/// The code of a factor holds every division that stands in the factor
/// before a digit.
proof fn lemma_factor_holds(s: Seq<char>, pos: int, at: int)
    requires
        0 <= pos <= s.len(),
        divides_at(s, at),
        factor(s, pos).fault is None,
        pos <= at < factor(s, pos).next,
    ensures
        holds_division(factor(s, pos).code, s, at),
    decreases s.len() - pos, 0int,
{
    let none = Seq::<Instr>::empty();
    if s[pos] == '(' {
        lemma_expression_holds(s, pos + 1, at);
    } else if s[pos] == '-' {
        let operand = factor(s, pos + 1);
        lemma_factor_holds(s, pos + 1, at);
        lemma_holds_in_part(none, operand.code, seq![Instr::Negate], s, at);
        assert(operand.code.push(Instr::Negate) == none + operand.code + seq![Instr::Negate]);
    } else if s[pos] == '+' {
        lemma_factor_holds(s, pos + 1, at);
    } else {
        lemma_literal_holds_no_sign(s, pos, at);
    }
}

/// If what was parsed so far holds the divisions that stand in it, so does
/// the rest of the term.
proof fn lemma_term_tail_holds(s: Seq<char>, from: int, done: Parse, at: int)
    requires
        0 <= from <= done.next <= s.len(),
        divides_at(s, at),
        done.fault is None,
        from <= at < done.next ==> holds_division(done.code, s, at),
        term_tail(s, done).fault is None,
        from <= at < term_tail(s, done).next,
    ensures
        holds_division(term_tail(s, done).code, s, at),
    decreases s.len() - done.next, 1int,
{
    let here = done.next;
    if here < s.len() && (s[here] == '*' || s[here] == '/') {
        let operand = factor(s, here + 1);
        let op = if s[here] == '*' {
            Instr::Multiply
        } else {
            Instr::Divide
        };
        lemma_factor_sound(s, here + 1);
        assert(advanced(s, here + 1, operand));
        let next = joined(done, operand, op);
        lemma_holds_in_joined(done, operand, op, s, at);
        if at < operand.next {
            if at == here {
                lemma_unsigned_sound(s, at + 1);
                assert(operand == unsigned(s, at + 1));
                assert(operand.code == seq![divisor_at(s, at)]);
                assert(next.code[done.code.len() as int] == divisor_at(s, at));
                assert(next.code[done.code.len() as int + 1] == Instr::Divide);
            } else if at > here {
                lemma_factor_holds(s, here + 1, at);
            }
        }
        lemma_term_tail_holds(s, from, next, at);
    }
}

/// The code of a term holds every division that stands in the term
/// before a digit.
proof fn lemma_term_holds(s: Seq<char>, pos: int, at: int)
    requires
        0 <= pos <= s.len(),
        divides_at(s, at),
        term(s, pos).fault is None,
        pos <= at < term(s, pos).next,
    ensures
        holds_division(term(s, pos).code, s, at),
    decreases s.len() - pos, 2int,
{
    let first = factor(s, pos);
    lemma_factor_sound(s, pos);
    if advanced(s, pos, first) {
        if at < first.next {
            lemma_factor_holds(s, pos, at);
        }
        lemma_term_tail_holds(s, pos, first, at);
    }
}

/// If what was parsed so far holds the divisions that stand in it, so does
/// the rest of the expression.
proof fn lemma_expression_tail_holds(s: Seq<char>, from: int, done: Parse, at: int)
    requires
        0 <= from <= done.next <= s.len(),
        divides_at(s, at),
        done.fault is None,
        from <= at < done.next ==> holds_division(done.code, s, at),
        expression_tail(s, done).fault is None,
        from <= at < expression_tail(s, done).next,
    ensures
        holds_division(expression_tail(s, done).code, s, at),
    decreases s.len() - done.next, 3int,
{
    let here = done.next;
    if here < s.len() && (s[here] == '+' || s[here] == '-') {
        let operand = term(s, here + 1);
        let op = if s[here] == '+' {
            Instr::Add
        } else {
            Instr::Subtract
        };
        lemma_term_sound(s, here + 1);
        assert(advanced(s, here + 1, operand));
        let next = joined(done, operand, op);
        lemma_holds_in_joined(done, operand, op, s, at);
        if here < at < operand.next {
            lemma_term_holds(s, here + 1, at);
        }
        lemma_expression_tail_holds(s, from, next, at);
    }
}

/// The code of an expression holds every division that stands in the
/// expression before a digit.
proof fn lemma_expression_holds(s: Seq<char>, pos: int, at: int)
    requires
        0 <= pos <= s.len(),
        divides_at(s, at),
        expression(s, pos).fault is None,
        pos <= at < expression(s, pos).next,
    ensures
        holds_division(expression(s, pos).code, s, at),
    decreases s.len() - pos, 4int,
{
    let first = term(s, pos);
    lemma_term_sound(s, pos);
    if advanced(s, pos, first) {
        if at < first.next {
            lemma_term_holds(s, pos, at);
        }
        lemma_expression_tail_holds(s, pos, first, at);
    }
}

/// The code of a source without a fault holds every division that stands
/// in the source before a digit: the literal behind the sign, and the
/// division right after it.
pub proof fn lemma_program_holds_division(s: Seq<char>, at: int)
    requires
        divides_at(s, at),
        program(s).fault is None,
    ensures
        holds_division(program(s).code, s, at),
{
    lemma_expression_sound(s, 0);
    lemma_expression_holds(s, 0, at);
}

/// Code that holds a division by a literal that is textually zero ends
/// there, whatever the arithmetic and from whatever stack.
pub proof fn lemma_zero_division_ends_code(
    f: spec_fn(RequestView) -> u64,
    s: Seq<char>,
    code: Seq<Instr>,
    at: int,
    stack: Seq<u64>,
)
    requires
        s.len() <= usize::MAX,
        divides_by_zero_at(s, at),
        unsigned(s, at + 1).fault is None,
        holds_division(code, s, at),
    ensures
        run_code(f, s, code, stack) is None,
{
    let k = choose|k: int|
        0 <= k && k + 1 < code.len() && #[trigger] code[k] == divisor_at(s, at) && code[k + 1]
            == Instr::Divide;
    lemma_unsigned_sound(s, at + 1);
    let before = code.take(k);
    assert(code.take(k + 1) == before.push(code[k]));
    assert(code.take(k + 2) == code.take(k + 1).push(code[k + 1]));
    lemma_run_push(f, s, before, code[k], stack);
    lemma_run_push(f, s, code.take(k + 1), code[k + 1], stack);
    assert(spec_is_zero(ZERO)) by (bit_vector);
    assert(literal_text(s, (at + 1) as usize, unsigned(s, at + 1).next as usize) == s.subrange(
        at + 1,
        unsigned(s, at + 1).next,
    ));
    match run_code(f, s, before, stack) {
        Some(values) => {
            assert(values.push(ZERO).last() == ZERO);
        },
        None => {},
    }
    lemma_run_prefix_ends(f, s, code, k + 2, stack);
}

/// An expression without a fault that holds a division sign before a
/// literal that is textually zero is worth a division by zero, whatever
/// the arithmetic and whatever else the expression holds.
pub proof fn lemma_zero_divisor_anywhere(f: spec_fn(RequestView) -> u64, s: Seq<char>, at: int)
    requires
        s.len() <= usize::MAX,
        program(s).fault is None,
        divides_by_zero_at(s, at),
    ensures
        value_of(f, s) == Err::<u64, EvalError>(EvalError::DivisionByZero),
{
    lemma_program_holds_division(s, at);
    let code = program(s).code;
    let k = choose|k: int|
        0 <= k && k + 1 < code.len() && #[trigger] code[k] == divisor_at(s, at) && code[k + 1]
            == Instr::Divide;
    crate::syntax::lemma_program_sound(s);
    assert(unsigned(s, at + 1).fault is None);
    lemma_zero_division_ends_code(f, s, code, at, Seq::empty());
    lemma_program_meaning(f, s);
}

/// Normalizing a text without blanks replaces its glyphs and nothing
/// else: a division sign of either kind is one in the source, at the same
/// place.
pub proof fn lemma_normalized_glyphs(e: Seq<char>)
    requires
        forall|i: int| 0 <= i < e.len() ==> !spec_is_blank(#[trigger] e[i]),
    ensures
        normalized(e).len() == e.len(),
        forall|i: int| 0 <= i < e.len() ==> #[trigger] normalized(e)[i] == spec_canonical(e[i]),
    decreases e.len(),
{
    if e.len() > 0 {
        lemma_normalized_glyphs(e.drop_last());
    }
}

impl Session {
    /// The equals key on an expression that divides by a literal that is
    /// textually zero: if the expression has no fault, then as soon as the
    /// arithmetic has answered often enough the display shows the error of
    /// a division by zero, and nothing else has changed but that the
    /// result is committed: the expression stands, and the value that was
    /// committed before is kept.
    pub proof fn lemma_calculate_by_zero(self, a: Arithmetic, at: int, rounds: nat)
        requires
            0 < self.expression.len() <= usize::MAX,
            rounds > program(normalized(self.expression)).code.len(),
            program(normalized(self.expression)).fault is None,
            divides_by_zero_at(normalized(self.expression), at),
        ensures
            self.calculate().settled(a, rounds).display == "Error: "@
                + "Division by zero"@,
            self.calculate().settled(a, rounds).expression == self.expression,
            self.calculate().settled(a, rounds).committed == self.committed,
            self.calculate().settled(a, rounds).pending_clear,
            self.calculate().settled(a, rounds).awaited() is None,
    {
        lemma_normalized_length(self.expression);
        lemma_zero_divisor_anywhere(a.numbers, normalized(self.expression), at);
        self.lemma_calculate_rests(a, rounds);
    }
}

} // verus!
