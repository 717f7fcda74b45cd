//! Rendering a double for the display.
//!
//! A double below ten to the fifteenth in magnitude is shown as a whole
//! number if it is one, or if its fractional part is less than a
//! ten-billionth. Any other finite double is shown with up to eight digits
//! after the point, where that takes at most twelve characters and the
//! double is neither below a ten-thousandth nor from ten to the fifteenth
//! on; elsewhere it is shown in scientific notation. In both forms, zeros
//! at the end of the decimals are left out, and so is a point that nothing
//! follows.

use vstd::arithmetic::power2::{lemma_pow2_adds, pow2};
use vstd::prelude::*;
use vstd::slice::slice_subrange;
use crate::ieee::{
    is_negative, lemma_pow2_fits, magnitude, places, power_of_two, remainder, spec_is_finite,
    spec_is_infinite, spec_is_nan, spec_is_negative, spec_magnitude, split, whole_part, INFINITY,
    ONE,
};
use crate::syntax::{is_digit, spec_is_digit};
use crate::text::{to_chars, to_string};

verus! {

/// The pattern of a ten-billionth, the tolerance under which a fractional
/// part counts as none.
pub const TOLERANCE: u64 = 0x3ddb_7cdf_d9d7_bdbb;

/// The significand of [`TOLERANCE`], which stands for it divided by two to
/// the power of 86.
pub const TOLERANCE_SIGNIFICAND: u128 = 0x1b_7cdf_d9d7_bdbb;

/// The pattern of ten to the fifteenth.
pub const PLAIN_LIMIT: u64 = 0x430c_6bf5_2634_0000;

/// The pattern of a ten-thousandth.
pub const PLAIN_FLOOR: u64 = 0x3f1a_36e2_eb1c_432d;

/// The most characters of a rendering with a fixed number of decimals.
pub const WIDTH: usize = 12;

/// The character of the digit `d`.
pub open spec fn digit_char(d: int) -> char {
    (d + 48) as char
}

/// The decimal digits of `n`, with no zero in front.
pub open spec fn decimal(n: int) -> Seq<char>
    decreases n,
{
    if n < 10 {
        seq![digit_char(n)]
    } else {
        decimal(n / 10).push(digit_char(n % 10))
    }
}

/// Appends the decimal digits of `n` to `out`.
pub fn push_decimal(out: &mut Vec<char>, n: u64)
    ensures
        final(out)@ == old(out)@ + decimal(n as int),
    decreases n,
{
    if n >= 10 {
        push_decimal(out, n / 10);
    }
    out.push(((n % 10) as u8 + 48) as char);
}

/// Whether the double is finite and so near above a whole number, below
/// ten to the fifteenth, that it is shown as that number. Below one, the
/// double is its own fractional part. From one on, its fractional part is
/// `remainder` over two to the power of `places`, and the tolerance is
/// [`TOLERANCE_SIGNIFICAND`] over two to the power of 86.
pub open spec fn spec_is_integer_like(bits: u64) -> bool {
    let m = spec_magnitude(bits);
    if m < ONE {
        m < TOLERANCE
    } else {
        m < PLAIN_LIMIT && remainder(m) * pow2((86 - places(m)) as nat) < TOLERANCE_SIGNIFICAND
    }
}

#[verifier::when_used_as_spec(spec_is_integer_like)]
pub fn is_integer_like(bits: u64) -> (b: bool)
    ensures
        b == spec_is_integer_like(bits),
{
    let m = magnitude(bits);
    if m < ONE {
        m < TOLERANCE
    } else if m >= PLAIN_LIMIT {
        false
    } else {
        let (_, rest, places) = split(m);
        let scale = power_of_two(86 - places);
        proof {
            lemma_pow2_adds(places as nat, (86 - places) as nat);
            lemma_pow2_fits(86);
            lemma_pow2_fits((86 - places) as nat);
            assert(rest * scale < pow2(places as nat) * scale) by (nonlinear_arith)
                requires
                    rest < pow2(places as nat),
                    scale > 0,
            ;
        }
        (rest as u128) * scale < TOLERANCE_SIGNIFICAND
    }
}

/// The whole number that an integer-like double is shown as: zero below
/// one, without a sign; else the whole part, after a minus sign for a
/// negative double.
pub open spec fn integer_text(bits: u64) -> Seq<char> {
    let m = spec_magnitude(bits);
    if m < ONE {
        seq!['0']
    } else if spec_is_negative(bits) {
        seq!['-'] + decimal(whole_part(m))
    } else {
        decimal(whole_part(m))
    }
}

/// Whether every character of `t` from `from` up to `to` is a digit.
pub open spec fn all_digits(t: Seq<char>, from: int, to: int) -> bool {
    forall|i: int| from <= i < to ==> spec_is_digit(#[trigger] t[i])
}

/// Computes [`all_digits`].
fn check_digits(t: &[char], from: usize, to: usize) -> (b: bool)
    requires
        from <= to <= t.len(),
    ensures
        b == all_digits(t@, from as int, to as int),
{
    let mut i = from;
    while i < to
        invariant
            from <= i <= to <= t.len(),
            all_digits(t@, from as int, i as int),
        decreases to - i,
    {
        if !is_digit(t[i]) {
            return false;
        }
        i += 1;
    }
    true
}

/// Where the digits of `t` start: after a minus sign if there is one.
pub open spec fn sign_length(t: Seq<char>) -> int {
    if t.len() > 0 && t[0] == '-' {
        1
    } else {
        0
    }
}

/// The shape of a rendering with eight decimals: an optional minus sign,
/// one digit or more, a point, eight digits.
pub open spec fn is_fixed(t: Seq<char>) -> bool {
    let start = sign_length(t);
    &&& t.len() >= start + 10
    &&& t[t.len() - 9] == '.'
    &&& all_digits(t, start, t.len() - 9)
    &&& all_digits(t, t.len() - 8, t.len() as int)
}

/// Computes [`is_fixed`].
pub fn check_fixed(t: &[char]) -> (b: bool)
    ensures
        b == is_fixed(t@),
{
    let n = t.len();
    let start: usize = if n > 0 && t[0] == '-' {
        1
    } else {
        0
    };
    n >= start + 10 && t[n - 9] == '.' && check_digits(t, start, n - 9) && check_digits(
        t,
        n - 8,
        n,
    )
}

/// Where the exponent of a scientific rendering starts: at its `e`.
pub open spec fn exponent_mark(t: Seq<char>) -> int {
    sign_length(t) + 8
}

/// Where the digits of the exponent of a scientific rendering start.
pub open spec fn exponent_digits(t: Seq<char>) -> int {
    let after = exponent_mark(t) + 1;
    if t.len() > after && t[after] == '-' {
        after + 1
    } else {
        after
    }
}

/// The shape of a rendering in scientific notation with six decimals: an
/// optional minus sign, a digit, a point, six digits, `e`, an optional
/// minus sign, one digit or more.
pub open spec fn is_scientific(t: Seq<char>) -> bool {
    let start = sign_length(t);
    let mark = exponent_mark(t);
    &&& t.len() > exponent_digits(t)
    &&& spec_is_digit(t[start])
    &&& t[start + 1] == '.'
    &&& all_digits(t, start + 2, mark)
    &&& t[mark] == 'e'
    &&& all_digits(t, exponent_digits(t), t.len() as int)
}

/// Computes [`is_scientific`].
pub fn check_scientific(t: &[char]) -> (b: bool)
    ensures
        b == is_scientific(t@),
{
    let n = t.len();
    let start: usize = if n > 0 && t[0] == '-' {
        1
    } else {
        0
    };
    if n < start + 10 {
        return false;
    }
    let mark = start + 8;
    let digits = if t[mark + 1] == '-' {
        mark + 2
    } else {
        mark + 1
    };
    n > digits && is_digit(t[start]) && t[start + 1] == '.' && check_digits(t, start + 2, mark)
        && t[mark] == 'e' && check_digits(t, digits, n)
}

/// `t` without the zeros at its end.
pub open spec fn without_zeros(t: Seq<char>) -> Seq<char>
    decreases t.len(),
{
    if t.len() > 0 && t.last() == '0' {
        without_zeros(t.drop_last())
    } else {
        t
    }
}

/// `t` without a point at its end.
pub open spec fn without_point(t: Seq<char>) -> Seq<char> {
    if t.len() > 0 && t.last() == '.' {
        t.drop_last()
    } else {
        t
    }
}

/// `t` without the zeros at its end, and without the point that they
/// followed if nothing else did.
pub open spec fn trimmed(t: Seq<char>) -> Seq<char> {
    without_point(without_zeros(t))
}

/// The length of [`trimmed`], which is a prefix of `t`.
pub fn trimmed_length(t: &[char]) -> (n: usize)
    ensures
        n <= t.len(),
        t@.take(n as int) == trimmed(t@),
{
    let mut n = t.len();
    assert(t@.take(n as int) == t@);
    while n > 0 && t[n - 1] == '0'
        invariant
            n <= t.len(),
            without_zeros(t@.take(n as int)) == without_zeros(t@),
        decreases n,
    {
        assert(t@.take(n as int).drop_last() == t@.take(n - 1));
        n -= 1;
    }
    if n > 0 && t[n - 1] == '.' {
        n -= 1;
    }
    n
}

/// A scientific rendering with its mantissa [`trimmed`].
pub open spec fn trimmed_scientific(t: Seq<char>) -> Seq<char> {
    trimmed(t.take(exponent_mark(t))) + t.skip(exponent_mark(t))
}

/// Appends the characters of `t` from `from` up to `to` to `out`.
fn push_range(out: &mut Vec<char>, t: &[char], from: usize, to: usize)
    requires
        from <= to <= t.len(),
    ensures
        final(out)@ == old(out)@ + t@.subrange(from as int, to as int),
{
    let mut i = from;
    while i < to
        invariant
            from <= i <= to <= t.len(),
            out@ == old(out)@ + t@.subrange(from as int, i as int),
        decreases to - i,
    {
        out.push(t[i]);
        i += 1;
        assert(t@.subrange(from as int, i as int) == t@.subrange(from as int, i - 1).push(
            t@[i - 1],
        ));
    }
}

/// Whether the rendering with eight decimals is the one to show: the
/// double is neither below a ten-thousandth nor from ten to the fifteenth
/// on, the rendering has its shape, and trimmed it is at most [`WIDTH`]
/// characters long.
pub open spec fn shows_fixed(bits: u64, fixed: Seq<char>) -> bool {
    let m = spec_magnitude(bits);
    PLAIN_FLOOR <= m < PLAIN_LIMIT && is_fixed(fixed) && trimmed(fixed).len() <= WIDTH
}

/// Whether a finite double can be shown as a number, given its two
/// renderings: it is integer-like, or one of the renderings can be used.
pub open spec fn is_renderable(bits: u64, fixed: Seq<char>, scientific: Seq<char>) -> bool {
    spec_is_finite(bits) && (spec_is_integer_like(bits) || shows_fixed(bits, fixed)
        || is_scientific(scientific))
}

/// What the display shows for the double `bits`, given its two renderings.
/// The renderings are read only for a finite double that is not
/// integer-like, and only as far as they have the shape they should have;
/// where neither can be used, and for NaN, the display shows `Error`.
pub open spec fn rendered(bits: u64, fixed: Seq<char>, scientific: Seq<char>) -> Seq<char> {
    if spec_is_nan(bits) {
        "Error"@
    } else if spec_is_infinite(bits) {
        if spec_is_negative(bits) {
            "-Infinity"@
        } else {
            "Infinity"@
        }
    } else if spec_is_integer_like(bits) {
        integer_text(bits)
    } else if shows_fixed(bits, fixed) {
        trimmed(fixed)
    } else if is_scientific(scientific) {
        trimmed_scientific(scientific)
    } else {
        "Error"@
    }
}

/// Whether the renderings of the double are needed to show it: it is
/// finite and not integer-like.
pub open spec fn spec_needs_digits(bits: u64) -> bool {
    spec_is_finite(bits) && !spec_is_integer_like(bits)
}

#[verifier::when_used_as_spec(spec_needs_digits)]
pub fn needs_digits(bits: u64) -> (b: bool)
    ensures
        b == spec_needs_digits(bits),
{
    magnitude(bits) < INFINITY && !is_integer_like(bits)
}

/// The text of a finite double that [`is_renderable`]; `None` for one
/// that is not.
pub(crate) fn render_finite(
    bits: u64,
    fixed: &[char],
    scientific: &[char],
) -> (text: Option<Vec<char>>)
    requires
        spec_is_finite(bits),
    ensures
        match text {
            Some(t) => is_renderable(bits, fixed@, scientific@) && t@ == rendered(
                bits,
                fixed@,
                scientific@,
            ),
            None => !is_renderable(bits, fixed@, scientific@),
        },
{
    let m = magnitude(bits);
    let mut text: Vec<char> = Vec::new();
    if is_integer_like(bits) {
        if m < ONE {
            text.push('0');
        } else {
            if is_negative(bits) {
                text.push('-');
            }
            let (whole, _, _) = split(m);
            push_decimal(&mut text, whole);
        }
        return Some(text);
    }
    if PLAIN_FLOOR <= m && m < PLAIN_LIMIT && check_fixed(fixed) {
        let n = trimmed_length(fixed);
        if n <= WIDTH {
            push_range(&mut text, fixed, 0, n);
            return Some(text);
        }
    }
    if check_scientific(scientific) {
        let mark: usize = if scientific[0] == '-' {
            9
        } else {
            8
        };
        let n = trimmed_length(slice_subrange(scientific, 0, mark));
        push_range(&mut text, scientific, 0, n);
        push_range(&mut text, scientific, mark, scientific.len());
        proof {
            let s = scientific@;
            assert(s.subrange(0, mark as int) == s.take(mark as int));
            assert(s.subrange(0, n as int) == s.take(mark as int).take(n as int));
            assert(s.subrange(mark as int, s.len() as int) == s.skip(mark as int));
        }
        return Some(text);
    }
    None
}

/// Computes [`rendered`].
pub fn render(bits: u64, fixed: &[char], scientific: &[char]) -> (text: Vec<char>)
    ensures
        text@ == rendered(bits, fixed@, scientific@),
{
    let m = magnitude(bits);
    if m > INFINITY {
        to_chars("Error")
    } else if m == INFINITY {
        if is_negative(bits) {
            to_chars("-Infinity")
        } else {
            to_chars("Infinity")
        }
    } else {
        match render_finite(bits, fixed, scientific) {
            Some(text) => text,
            None => to_chars("Error"),
        }
    }
}

/// What the display shows for the double `bits`, given its rendering
/// with eight decimals and its rendering in scientific notation with six.
pub fn format_number(bits: u64, fixed: &str, scientific: &str) -> (text: String)
    ensures
        text@ == rendered(bits, fixed@, scientific@),
{
    let f = to_chars(fixed);
    let s = to_chars(scientific);
    let text = render(bits, f.as_slice(), s.as_slice());
    to_string(text.as_slice())
}

/// The characters that a rendered number is made of.
pub open spec fn is_number_char(c: char) -> bool {
    spec_is_digit(c) || c == '-' || c == '.' || c == 'e'
}

/// The shape of every text that stands for a number on the display: it
/// is made of digits, minus signs, points and `e`, starts with a digit or
/// a minus sign, has a digit after each minus sign, and ends with a digit.
pub open spec fn is_number_text(t: Seq<char>) -> bool {
    &&& t.len() > 0
    &&& forall|i: int| 0 <= i < t.len() ==> is_number_char(#[trigger] t[i])
    &&& forall|i: int|
        0 <= i < t.len() && #[trigger] t[i] == '-' ==> i + 1 < t.len() && spec_is_digit(t[i + 1])
    &&& spec_is_digit(t[0]) || t[0] == '-'
    &&& spec_is_digit(t.last())
}

/// The decimal digits of a number are digits, and there is one at least.
pub proof fn lemma_decimal_digits(n: int)
    requires
        0 <= n,
    ensures
        decimal(n).len() > 0,
        all_digits(decimal(n), 0, decimal(n).len() as int),
    decreases n,
{
    if n >= 10 {
        lemma_decimal_digits(n / 10);
    }
}

/// Leaving out the zeros at the end of `t` leaves a prefix of `t` that
/// ends in no zero and reaches past every place that holds none.
pub proof fn lemma_without_zeros(t: Seq<char>, floor: int)
    requires
        0 <= floor < t.len(),
        t[floor] != '0',
    ensures
        floor < without_zeros(t).len() <= t.len(),
        without_zeros(t) == t.take(without_zeros(t).len() as int),
        without_zeros(t).last() != '0',
    decreases t.len(),
{
    if t.last() == '0' {
        lemma_without_zeros(t.drop_last(), floor);
        let k = without_zeros(t.drop_last()).len() as int;
        assert(t.drop_last().take(k) == t.take(k));
    } else {
        assert(t.take(t.len() as int) == t);
    }
}

/// A trimmed rendering with eight decimals has the shape of a number.
proof fn lemma_trimmed_fixed(t: Seq<char>)
    requires
        is_fixed(t),
    ensures
        is_number_text(trimmed(t)),
{
    let point = t.len() - 9;
    lemma_without_zeros(t, point);
    let r = trimmed(t);
    assert(r == t.take(r.len() as int));
    assert(point <= r.len());
    assert forall|i: int| 0 <= i < r.len() implies is_number_char(#[trigger] r[i]) by {
        assert(r[i] == t[i]);
        if i >= sign_length(t) && i != point {
            assert(spec_is_digit(t[i]));
        }
    }
    assert forall|i: int| 0 <= i < r.len() && #[trigger] r[i] == '-' implies i + 1 < r.len()
        && spec_is_digit(r[i + 1]) by {
        assert(r[i] == t[i]);
        if i >= sign_length(t) && i != point {
            assert(spec_is_digit(t[i]));
        }
        assert(i == 0 && sign_length(t) == 1);
        assert(r[1] == t[1]);
    }
    assert(spec_is_digit(t[sign_length(t)]));
    assert(r.last() == t[r.len() - 1]);
    assert(spec_is_digit(t[r.len() - 1]));
}

/// A trimmed rendering in scientific notation has the shape of a number.
proof fn lemma_trimmed_scientific(t: Seq<char>)
    requires
        is_scientific(t),
    ensures
        is_number_text(trimmed_scientific(t)),
{
    let start = sign_length(t);
    let mark = exponent_mark(t);
    let mantissa = t.take(mark);
    let tail = t.skip(mark);
    lemma_without_zeros(mantissa, start + 1);
    let m = trimmed(mantissa);
    let r = trimmed_scientific(t);
    assert(m == mantissa.take(m.len() as int));
    assert(m.len() > start);
    assert(r == m + tail);
    assert forall|i: int| 0 <= i < r.len() implies is_number_char(#[trigger] r[i]) by {
        if i < m.len() {
            assert(r[i] == t[i]);
            if i >= start + 2 {
                assert(spec_is_digit(t[i]));
            }
        } else {
            let j = i - m.len() + mark;
            assert(r[i] == t[j]);
            if j >= exponent_digits(t) {
                assert(spec_is_digit(t[j]));
            }
        }
    }
    assert forall|i: int| 0 <= i < r.len() && #[trigger] r[i] == '-' implies i + 1 < r.len()
        && spec_is_digit(r[i + 1]) by {
        if i < m.len() {
            assert(r[i] == t[i]);
            if i >= start + 2 {
                assert(spec_is_digit(t[i]));
            }
            assert(r[1] == t[1]);
        } else {
            let j = i - m.len() + mark;
            assert(r[i] == t[j]);
            if j >= exponent_digits(t) {
                assert(spec_is_digit(t[j]));
            }
            assert(j == mark + 1);
            assert(r[i + 1] == t[j + 1]);
            assert(spec_is_digit(t[j + 1]));
        }
    }
    assert(r[0] == t[0]);
    assert(r.last() == t.last());
    assert(spec_is_digit(t[t.len() - 1]));
}

/// Whatever is shown for a finite double that can be shown has the shape
/// of a number.
pub proof fn lemma_rendered_number(bits: u64, fixed: Seq<char>, scientific: Seq<char>)
    requires
        is_renderable(bits, fixed, scientific),
    ensures
        is_number_text(rendered(bits, fixed, scientific)),
{
    let m = spec_magnitude(bits);
    if spec_is_integer_like(bits) {
        if m >= ONE {
            assert(whole_part(m) >= 0) by {
                lemma_pow2_fits(0);
                vstd::arithmetic::power2::lemma_pow2_pos(places(m) as nat);
                assert(crate::ieee::significand(m) >= 0);
                vstd::arithmetic::div_mod::lemma_div_pos_is_pos(
                    crate::ieee::significand(m),
                    pow2(places(m) as nat) as int,
                );
            }
            lemma_decimal_digits(whole_part(m));
            let d = decimal(whole_part(m));
            assert(spec_is_digit(d[0]));
            assert(spec_is_digit(d[d.len() - 1]));
            let t = integer_text(bits);
            assert forall|i: int| 0 <= i < t.len() implies is_number_char(#[trigger] t[i]) && (
            t[i] == '-' ==> i + 1 < t.len() && spec_is_digit(t[i + 1])) by {
                if spec_is_negative(bits) {
                    if i > 0 {
                        assert(t[i] == d[i - 1]);
                        assert(spec_is_digit(d[i - 1]));
                    } else {
                        assert(t[1] == d[0]);
                    }
                } else {
                    assert(spec_is_digit(d[i]));
                }
            }
            assert(t.last() == d.last());
        }
    } else if shows_fixed(bits, fixed) {
        lemma_trimmed_fixed(fixed);
    } else {
        lemma_trimmed_scientific(scientific);
    }
}

} // verus!
