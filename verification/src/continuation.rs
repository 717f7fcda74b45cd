//! Going on from a result.
//!
//! After a commit, an operator makes the expression go on from what the
//! display shows. This module shows that a number on the display is an
//! expression of the grammar: a literal, after a minus sign if the number
//! is negative.

use vstd::prelude::*;
use crate::format::{
    all_digits, decimal, exponent_digits, exponent_mark, integer_text, is_fixed, is_renderable,
    is_scientific, lemma_decimal_digits, lemma_without_zeros, rendered, shows_fixed, sign_length,
    spec_is_integer_like, trimmed, trimmed_scientific, without_zeros,
};
use crate::ieee::{spec_is_negative, spec_magnitude, whole_part, ONE};
use crate::syntax::{
    digits_end, ends_open, expression, expression_tail, factor, normalized, program, unsigned,
    spec_canonical, spec_is_blank, spec_is_digit, term, term_tail, whole,
};

verus! {

/// A run of digits ends where the digits end.
proof fn lemma_digits_run(t: Seq<char>, from: int, to: int)
    requires
        0 <= from <= to <= t.len(),
        all_digits(t, from, to),
        to < t.len() ==> !spec_is_digit(t[to]),
    ensures
        digits_end(t, from) == to,
    decreases to - from,
{
    if from < to {
        assert(spec_is_digit(t[from]));
        lemma_digits_run(t, from + 1, to);
    }
}

/// The parts of a literal that starts at `start` and ends where the text
/// ends: its whole digits end at `point`, its decimals at `mark`, and the
/// digits of its exponent start at `digits`.
spec fn is_laid_out(t: Seq<char>, start: int, point: int, mark: int, digits: int) -> bool {
    &&& 0 <= start < point <= mark <= t.len()
    &&& all_digits(t, start, point)
    &&& point < mark ==> t[point] == '.' && point + 1 < mark && all_digits(t, point + 1, mark)
    &&& point == mark && mark < t.len() ==> t[mark] != '.'
    &&& mark < t.len() ==> {
        &&& t[mark] == 'e' || t[mark] == 'E'
        &&& digits < t.len()
        &&& all_digits(t, digits, t.len() as int)
        &&& digits == mark + 1 && t[mark + 1] != '+' && t[mark + 1] != '-' || digits == mark + 2
            && (t[mark + 1] == '+' || t[mark + 1] == '-')
    }
}

/// A text that is laid out as a literal is one for the rule `number`,
/// which takes it to its end.
proof fn lemma_laid_out_is_number(t: Seq<char>, start: int, point: int, mark: int, digits: int)
    requires
        is_laid_out(t, start, point, mark, digits),
    ensures
        unsigned(t, start).fault is None,
        unsigned(t, start).next == t.len(),
{
    lemma_digits_run(t, start, point);
    if point < mark {
        lemma_digits_run(t, point + 1, mark);
    }
    if mark < t.len() {
        lemma_digits_run(t, digits, t.len() as int);
    }
}

/// A literal that reaches the end of the text, with or without a minus
/// sign in front, is an expression without a fault.
proof fn lemma_signed_number_is_expression(t: Seq<char>)
    requires
        t.len() > 0,
        spec_is_digit(t.last()),
        unsigned(t, sign_length(t)).fault is None,
        unsigned(t, sign_length(t)).next == t.len(),
    ensures
        program(t).fault is None,
{
    let start = sign_length(t);
    let n = unsigned(t, start);
    assert(!spec_is_digit('(') && !spec_is_digit('-') && !spec_is_digit('+'));
    crate::syntax::lemma_digits_end(t, start);
    assert(spec_is_digit(t[start])) by {
        if !spec_is_digit(t[start]) {
            assert(digits_end(t, start) == start);
        }
    }
    assert(factor(t, start) == n);
    let f = factor(t, 0);
    if start == 1 {
        assert(f.fault is None && f.next == t.len());
    }
    assert(f.fault is None && f.next == t.len());
    assert(term_tail(t, f) == f);
    assert(term(t, 0) == f);
    assert(expression_tail(t, f) == f);
    assert(expression(t, 0) == f);
    assert(whole(t) == f);
    assert(!ends_open(t));
}

/// Normalizing leaves a text as it is that holds neither a blank nor a
/// glyph to replace.
pub proof fn lemma_normalized_same(t: Seq<char>)
    requires
        forall|i: int|
            0 <= i < t.len() ==> !spec_is_blank(#[trigger] t[i]) && spec_canonical(t[i]) == t[i],
    ensures
        normalized(t) == t,
    decreases t.len(),
{
    if t.len() > 0 {
        lemma_normalized_same(t.drop_last());
        assert(t.drop_last().push(t.last()) == t);
    }
}

/// A trimmed rendering with eight decimals is laid out as a literal.
proof fn lemma_trimmed_fixed_laid_out(t: Seq<char>)
    requires
        is_fixed(t),
    ensures
        ({
            let r = trimmed(t);
            let point = t.len() - 9;
            &&& sign_length(r) == sign_length(t)
            &&& is_laid_out(r, sign_length(t), point, r.len() as int, r.len() as int)
        }),
{
    let point = t.len() - 9;
    let start = sign_length(t);
    lemma_without_zeros(t, point);
    let z = without_zeros(t);
    let r = trimmed(t);
    assert(r == t.take(r.len() as int));
    assert(z.last() == t[z.len() - 1]);
    if z.len() > point + 1 {
        assert(spec_is_digit(t[z.len() - 1]));
    }
    assert(r[0] == t[0]);
    assert forall|i: int| start <= i < point implies spec_is_digit(#[trigger] r[i]) by {
        assert(r[i] == t[i]);
    }
    if point < r.len() {
        assert(r[point] == t[point]);
        assert forall|i: int| point + 1 <= i < r.len() implies spec_is_digit(#[trigger] r[i]) by {
            assert(r[i] == t[i]);
        }
    }
}

/// A trimmed rendering in scientific notation is laid out as a literal.
proof fn lemma_trimmed_scientific_laid_out(t: Seq<char>)
    requires
        is_scientific(t),
    ensures
        ({
            let r = trimmed_scientific(t);
            let m = trimmed(t.take(exponent_mark(t)));
            &&& sign_length(r) == sign_length(t)
            &&& is_laid_out(
                r,
                sign_length(t),
                sign_length(t) + 1,
                m.len() as int,
                m.len() + exponent_digits(t) - exponent_mark(t),
            )
        }),
{
    let start = sign_length(t);
    let mark = exponent_mark(t);
    let mantissa = t.take(mark);
    let tail = t.skip(mark);
    lemma_without_zeros(mantissa, start + 1);
    let z = without_zeros(mantissa);
    let m = trimmed(mantissa);
    let r = trimmed_scientific(t);
    assert(m == mantissa.take(m.len() as int));
    assert(z.last() == mantissa[z.len() - 1]);
    if z.len() > start + 2 {
        assert(mantissa[z.len() - 1] == t[z.len() - 1]);
        assert(spec_is_digit(t[z.len() - 1]));
    }
    assert(r == m + tail);
    assert(r[0] == t[0]);
    assert(r[start] == t[start]);
    assert forall|i: int| start <= i < start + 1 implies spec_is_digit(#[trigger] r[i]) by {
        assert(r[i] == t[i]);
    }
    if start + 1 < m.len() {
        assert(r[start + 1] == t[start + 1]);
        assert forall|i: int| start + 2 <= i < m.len() implies spec_is_digit(#[trigger] r[i]) by {
            assert(r[i] == t[i]);
        }
    }
    let shift = m.len() - mark;
    assert(r[m.len() as int] == t[mark]);
    assert(r[m.len() as int + 1] == t[mark + 1]);
    assert forall|i: int| m.len() + exponent_digits(t) - mark <= i < r.len() implies spec_is_digit(
        #[trigger] r[i],
    ) by {
        assert(r[i] == t[i - shift]);
        assert(spec_is_digit(t[i - shift]));
    }
}

/// The whole number of an integer-like double is laid out as a literal.
proof fn lemma_integer_text_laid_out(bits: u64)
    requires
        spec_is_integer_like(bits),
    ensures
        ({
            let t = integer_text(bits);
            is_laid_out(t, sign_length(t), t.len() as int, t.len() as int, t.len() as int)
        }),
{
    let m = spec_magnitude(bits);
    let t = integer_text(bits);
    if m >= ONE {
        assert(whole_part(m) >= 0) by {
            vstd::arithmetic::power2::lemma_pow2_pos(crate::ieee::places(m) as nat);
            vstd::arithmetic::div_mod::lemma_div_pos_is_pos(
                crate::ieee::significand(m),
                vstd::arithmetic::power2::pow2(crate::ieee::places(m) as nat) as int,
            );
        }
        lemma_decimal_digits(whole_part(m));
        let d = decimal(whole_part(m));
        assert(spec_is_digit(d[0]));
        if spec_is_negative(bits) {
            assert(t[0] == '-');
            assert forall|i: int| 1 <= i < t.len() implies spec_is_digit(#[trigger] t[i]) by {
                assert(t[i] == d[i - 1]);
                assert(spec_is_digit(d[i - 1]));
            }
        } else {
            assert(t[0] == d[0]);
        }
    }
}

/// What the display shows for a double that can be shown is an expression
/// of the grammar, which normalizing leaves as it is: after a commit, the
/// expression can go on from the display.
pub proof fn lemma_rendered_is_expression(bits: u64, fixed: Seq<char>, scientific: Seq<char>)
    requires
        is_renderable(bits, fixed, scientific),
    ensures
        normalized(rendered(bits, fixed, scientific)) == rendered(bits, fixed, scientific),
        program(rendered(bits, fixed, scientific)).fault is None,
{
    let t = rendered(bits, fixed, scientific);
    crate::format::lemma_rendered_number(bits, fixed, scientific);
    assert forall|i: int| 0 <= i < t.len() implies !spec_is_blank(#[trigger] t[i])
        && spec_canonical(t[i]) == t[i] by {
        assert(crate::format::is_number_char(t[i]));
    }
    lemma_normalized_same(t);
    let start = sign_length(t);
    if spec_is_integer_like(bits) {
        lemma_integer_text_laid_out(bits);
        lemma_laid_out_is_number(t, start, t.len() as int, t.len() as int, t.len() as int);
    } else if shows_fixed(bits, fixed) {
        lemma_trimmed_fixed_laid_out(fixed);
        lemma_laid_out_is_number(t, start, fixed.len() - 9, t.len() as int, t.len() as int);
    } else {
        lemma_trimmed_scientific_laid_out(scientific);
        let m = trimmed(scientific.take(exponent_mark(scientific)));
        lemma_laid_out_is_number(
            t,
            start,
            start + 1,
            m.len() as int,
            m.len() + exponent_digits(scientific) - exponent_mark(scientific),
        );
    }
    lemma_signed_number_is_expression(t);
}

} // verus!
