//! The grammar of expressions, and the parser that compiles an expression to
//! postfix code.
//!
//! ```text
//! expression := term (('+' | '-') term)*
//! term       := factor (('*' | '/') factor)*
//! factor     := '(' expression ')' | '-' factor | '+' factor | number
//! number     := ['-'] literal
//! literal    := digit+ ['.' digit+] [('e' | 'E') ['+' | '-'] digit+]
//! ```
//!
//! Before parsing, blanks are dropped and the glyphs `×` and `÷` become `*`
//! and `/`. Binary operators associate to the left; a sign binds tighter than
//! any of them.

use vstd::prelude::*;
use crate::error::EvalError;
use crate::postfix::{
    delta, depth, height, lemma_safe_concat, lemma_safe_push, lemma_spans_concat, needs,
    spans_inside, stack_safe, Instr,
};

verus! {

/// What a grammar rule yields when it is tried at a position: the code
/// emitted up to the first fault, the position reached, and the fault if
/// there is one.
pub struct Parse {
    pub code: Seq<Instr>,
    pub next: int,
    pub fault: Option<EvalError>,
}

pub open spec fn spec_is_digit(c: char) -> bool {
    '0' <= c && c <= '9'
}

#[verifier::when_used_as_spec(spec_is_digit)]
pub fn is_digit(c: char) -> (b: bool)
    ensures
        b == spec_is_digit(c),
{
    '0' <= c && c <= '9'
}

/// The blanks that normalization drops: space, tab, line feed, form feed
/// and carriage return.
pub open spec fn spec_is_blank(c: char) -> bool {
    c == ' ' || c == '\t' || c == '\n' || c == '\x0C' || c == '\r'
}

#[verifier::when_used_as_spec(spec_is_blank)]
pub fn is_blank(c: char) -> (b: bool)
    ensures
        b == spec_is_blank(c),
{
    c == ' ' || c == '\t' || c == '\n' || c == '\x0C' || c == '\r'
}

/// The character that the parser reads for `c`: the multiplication and
/// division glyphs become `*` and `/`.
pub open spec fn spec_canonical(c: char) -> char {
    if c == '\u{d7}' {
        '*'
    } else if c == '\u{f7}' {
        '/'
    } else {
        c
    }
}

#[verifier::when_used_as_spec(spec_canonical)]
pub fn canonical(c: char) -> (r: char)
    ensures
        r == spec_canonical(c),
{
    if c == '\u{d7}' {
        '*'
    } else if c == '\u{f7}' {
        '/'
    } else {
        c
    }
}

/// The text without its blanks, every remaining character canonical.
pub open spec fn normalized(text: Seq<char>) -> Seq<char>
    decreases text.len(),
{
    if text.len() == 0 {
        Seq::empty()
    } else if spec_is_blank(text.last()) {
        normalized(text.drop_last())
    } else {
        normalized(text.drop_last()).push(spec_canonical(text.last()))
    }
}

/// Computes [`normalized`].
pub fn normalize(text: &[char]) -> (out: Vec<char>)
    ensures
        out@ == normalized(text@),
{
    let mut out: Vec<char> = Vec::new();
    let mut i: usize = 0;
    while i < text.len()
        invariant
            i <= text.len(),
            out@ == normalized(text@.take(i as int)),
        decreases text.len() - i,
    {
        let c = text[i];
        assert(text@.take(i + 1).drop_last() == text@.take(i as int));
        if !is_blank(c) {
            out.push(canonical(c));
        }
        i += 1;
    }
    assert(text@.take(text.len() as int) == text@);
    out
}

/// Normalizing makes no text longer.
pub proof fn lemma_normalized_length(text: Seq<char>)
    ensures
        normalized(text).len() <= text.len(),
    decreases text.len(),
{
    if text.len() > 0 {
        lemma_normalized_length(text.drop_last());
    }
}

/// The first position at or after `pos` that holds no digit.
pub open spec fn digits_end(s: Seq<char>, pos: int) -> int
    decreases s.len() - pos,
{
    if 0 <= pos < s.len() && spec_is_digit(s[pos]) {
        digits_end(s, pos + 1)
    } else {
        pos
    }
}

/// The rule `literal` at `pos`. It takes the longest run of digits, an
/// optional point with its digits and an optional exponent, and faults
/// unless each part that is there has at least one digit.
pub open spec fn unsigned(s: Seq<char>, pos: int) -> Parse {
    let int_end = digits_end(s, pos);
    let has_point = int_end < s.len() && s[int_end] == '.';
    let frac_end = if has_point {
        digits_end(s, int_end + 1)
    } else {
        int_end
    };
    let has_exp = frac_end < s.len() && (s[frac_end] == 'e' || s[frac_end] == 'E');
    let has_sign = has_exp && frac_end + 1 < s.len() && (s[frac_end + 1] == '+' || s[frac_end + 1]
        == '-');
    let exp_start = if has_sign {
        frac_end + 2
    } else {
        frac_end + 1
    };
    let end = if has_exp {
        digits_end(s, exp_start)
    } else {
        frac_end
    };
    if int_end > pos && (has_point ==> frac_end > int_end + 1) && (has_exp ==> end > exp_start) {
        Parse {
            code: seq![Instr::Number { start: pos as usize, end: end as usize }],
            next: end,
            fault: None,
        }
    } else {
        Parse { code: Seq::empty(), next: end, fault: Some(EvalError::InvalidNumberFormat) }
    }
}

/// The rule `number` at `pos`: a literal, behind a minus sign or without
/// one. The sign is applied once, to the value of the literal.
pub open spec fn number(s: Seq<char>, pos: int) -> Parse {
    if 0 <= pos < s.len() && s[pos] == '-' {
        let literal = unsigned(s, pos + 1);
        if literal.fault is Some {
            literal
        } else {
            Parse { code: literal.code.push(Instr::Negate), next: literal.next, fault: None }
        }
    } else {
        unsigned(s, pos)
    }
}

/// Whether `t`, taken by itself, is a literal of the grammar.
pub open spec fn is_literal(t: Seq<char>) -> bool {
    unsigned(t, 0).fault is None && unsigned(t, 0).next == t.len()
}

/// Whether every literal of `code` is what the rule `literal` took from
/// `s` where the literal starts.
pub open spec fn scanned(s: Seq<char>, code: Seq<Instr>) -> bool {
    forall|k: int|
        0 <= k < code.len() ==> (#[trigger] code[k] matches Instr::Number { start, end }
            ==> unsigned(s, start as int).fault is None && unsigned(s, start as int).next == end)
}

/// The rule `factor` at `pos`.
pub open spec fn factor(s: Seq<char>, pos: int) -> Parse
    decreases s.len() - pos, 0int,
{
    if pos < 0 || pos >= s.len() {
        Parse { code: Seq::empty(), next: pos, fault: Some(EvalError::UnexpectedEndOfExpression) }
    } else if s[pos] == '(' {
        let inner = expression(s, pos + 1);
        if inner.fault is Some {
            inner
        } else if 0 <= inner.next < s.len() && s[inner.next] == ')' {
            Parse { code: inner.code, next: inner.next + 1, fault: None }
        } else {
            Parse {
                code: inner.code,
                next: inner.next,
                fault: Some(EvalError::UnbalancedParenthesis),
            }
        }
    } else if s[pos] == '-' {
        let operand = factor(s, pos + 1);
        if operand.fault is Some {
            operand
        } else {
            Parse { code: operand.code.push(Instr::Negate), next: operand.next, fault: None }
        }
    } else if s[pos] == '+' {
        factor(s, pos + 1)
    } else {
        number(s, pos)
    }
}

/// Whether `p` ended without a fault, further on than `from` and inside `s`.
/// Every rule that succeeds does (see [`lemma_expression_sound`]); the grammar
/// asks before it goes on, so that it is plainly well founded.
pub open spec fn advanced(s: Seq<char>, from: int, p: Parse) -> bool {
    p.fault is None && from < p.next <= s.len()
}

/// What was parsed so far, an operand after it, and the operator between
/// them applied.
pub open spec fn joined(done: Parse, operand: Parse, op: Instr) -> Parse {
    Parse { code: (done.code + operand.code).push(op), next: operand.next, fault: None }
}

/// What was parsed so far and an operand after it that ended with a fault.
pub open spec fn broken(done: Parse, operand: Parse) -> Parse {
    Parse { code: done.code + operand.code, next: operand.next, fault: operand.fault }
}

/// What follows a first factor in the rule `term`: factors, each after `*`
/// or `/`. `done` is what was parsed so far.
pub open spec fn term_tail(s: Seq<char>, done: Parse) -> Parse
    decreases s.len() - done.next, 1int,
{
    if 0 <= done.next < s.len() && (s[done.next] == '*' || s[done.next] == '/') {
        let operand = factor(s, done.next + 1);
        let op = if s[done.next] == '*' {
            Instr::Multiply
        } else {
            Instr::Divide
        };
        if advanced(s, done.next + 1, operand) {
            term_tail(s, joined(done, operand, op))
        } else {
            broken(done, operand)
        }
    } else {
        done
    }
}

/// The rule `term` at `pos`.
pub open spec fn term(s: Seq<char>, pos: int) -> Parse
    decreases s.len() - pos, 2int,
{
    let first = factor(s, pos);
    if advanced(s, pos, first) {
        term_tail(s, first)
    } else {
        first
    }
}

/// What follows a first term in the rule `expression`: terms, each after
/// `+` or `-`. `done` is what was parsed so far.
pub open spec fn expression_tail(s: Seq<char>, done: Parse) -> Parse
    decreases s.len() - done.next, 3int,
{
    if 0 <= done.next < s.len() && (s[done.next] == '+' || s[done.next] == '-') {
        let operand = term(s, done.next + 1);
        let op = if s[done.next] == '+' {
            Instr::Add
        } else {
            Instr::Subtract
        };
        if advanced(s, done.next + 1, operand) {
            expression_tail(s, joined(done, operand, op))
        } else {
            broken(done, operand)
        }
    } else {
        done
    }
}

/// The rule `expression` at `pos`.
pub open spec fn expression(s: Seq<char>, pos: int) -> Parse
    decreases s.len() - pos, 4int,
{
    let first = term(s, pos);
    if advanced(s, pos, first) {
        expression_tail(s, first)
    } else {
        first
    }
}

/// Whether `s` ends in an operator, an opening parenthesis or a point.
pub open spec fn ends_open(s: Seq<char>) -> bool {
    s.len() > 0 && (s.last() == '+' || s.last() == '-' || s.last() == '*' || s.last() == '/'
        || s.last() == '(' || s.last() == '.')
}

/// The rule `expression` at `pos`, which must use all that is left of `s`.
pub open spec fn rest(s: Seq<char>, pos: int) -> Parse {
    let e = expression(s, pos);
    if e.fault is None && e.next < s.len() {
        Parse { code: e.code, next: e.next, fault: Some(EvalError::UnexpectedCharacter) }
    } else {
        e
    }
}

/// The rule `expression` from the start of `s`, which must use all of `s`.
pub open spec fn whole(s: Seq<char>) -> Parse {
    rest(s, 0)
}

/// The code of a normalized source `s`, and the fault that ends it if there
/// is one. The empty source has no code and no fault. A source that
/// [`ends_open`] is incomplete and not parsed at all.
pub open spec fn program(s: Seq<char>) -> Parse {
    if s.len() == 0 {
        Parse { code: Seq::empty(), next: 0, fault: None }
    } else if ends_open(s) {
        Parse { code: Seq::empty(), next: 0, fault: Some(EvalError::IncompleteExpression) }
    } else {
        whole(s)
    }
}

/// What a parsing step returns for a fault or for none.
pub open spec fn verdict(fault: Option<EvalError>) -> Result<(), EvalError> {
    match fault {
        Some(e) => Err(e),
        None => Ok(()),
    }
}

/// A recursive-descent parser: a cursor into a normalized source and the
/// code emitted so far. The cursor only moves forward.
pub struct ExpressionParser<'a> {
    input: &'a [char],
    pos: usize,
    code: Vec<Instr>,
}

impl<'a> ExpressionParser<'a> {
    /// The source that is parsed.
    pub closed spec fn source(&self) -> Seq<char> {
        self.input@
    }

    /// The cursor.
    pub closed spec fn position(&self) -> int {
        self.pos as int
    }

    /// The code emitted so far.
    pub closed spec fn emitted(&self) -> Seq<Instr> {
        self.code@
    }

    /// The cursor is inside the source or at its end.
    pub open spec fn wf(&self) -> bool {
        0 <= self.position() <= self.source().len()
    }

    /// Whether `self` is what `before` becomes by a step that yields `p`
    /// and returns `r`: the code of `p` is appended, the cursor stands
    /// where `p` ended, and `r` tells the fault of `p`.
    pub open spec fn follows(&self, before: &Self, p: Parse, r: Result<(), EvalError>) -> bool {
        &&& self.wf()
        &&& self.source() == before.source()
        &&& self.emitted() == before.emitted() + p.code
        &&& self.position() == p.next
        &&& r == verdict(p.fault)
        &&& r is Ok ==> self.position() > before.position()
    }

    /// A parser at the start of `input`, with no code emitted.
    pub fn new(input: &'a [char]) -> (parser: Self)
        ensures
            parser.wf(),
            parser.source() == input@,
            parser.position() == 0,
            parser.emitted() == Seq::<Instr>::empty(),
    {
        ExpressionParser { input, pos: 0, code: Vec::new() }
    }

    /// The character under the cursor, or NUL at the end of the source.
    pub fn current_char(&self) -> (c: char)
        requires
            self.wf(),
        ensures
            c == if self.position() < self.source().len() {
                self.source()[self.position()]
            } else {
                '\0'
            },
    {
        if self.pos < self.input.len() {
            self.input[self.pos]
        } else {
            '\0'
        }
    }

    /// The code emitted so far; the parser is used up.
    pub fn into_code(self) -> (code: Vec<Instr>)
        ensures
            code@ == self.emitted(),
    {
        self.code
    }

    /// Moves the cursor past the digits under it.
    fn skip_digits(&mut self)
        requires
            old(self).wf(),
        ensures
            final(self).wf(),
            final(self).source() == old(self).source(),
            final(self).emitted() == old(self).emitted(),
            final(self).position() == digits_end(old(self).source(), old(self).position()),
            final(self).position() >= old(self).position(),
    {
        while self.pos < self.input.len() && is_digit(self.input[self.pos])
            invariant
                self.wf(),
                self.input == old(self).input,
                self.code == old(self).code,
                self.pos >= old(self).pos,
                digits_end(self.input@, self.pos as int) == digits_end(
                    old(self).input@,
                    old(self).pos as int,
                ),
            decreases self.input.len() - self.pos,
        {
            self.pos += 1;
        }
    }

    /// Parses the rule `number`: a literal, behind a minus sign or without
    /// one. The sign is applied once.
    pub fn parse_number(&mut self) -> (r: Result<(), EvalError>)
        requires
            old(self).wf(),
        ensures
            final(self).follows(old(self), number(old(self).source(), old(self).position()), r),
    {
        let is_negative = self.current_char() == '-';
        if is_negative {
            assert(self.pos < self.input.len());
            self.pos += 1;
        }
        match self.parse_literal() {
            Err(e) => Err(e),
            Ok(()) => {
                if is_negative {
                    self.code.push(Instr::Negate);
                    let ghost literal = unsigned(old(self).source(), old(self).position() + 1);
                    assert(self.code@ == old(self).code@ + literal.code.push(Instr::Negate));
                }
                Ok(())
            },
        }
    }

    /// Parses the rule `literal`.
    fn parse_literal(&mut self) -> (r: Result<(), EvalError>)
        requires
            old(self).wf(),
        ensures
            final(self).follows(old(self), unsigned(old(self).source(), old(self).position()), r),
    {
        let start = self.pos;
        self.skip_digits();
        let has_int = self.pos > start;
        let mut has_frac = true;
        if self.current_char() == '.' {
            assert(self.pos < self.input.len());
            self.pos += 1;
            let frac_start = self.pos;
            self.skip_digits();
            has_frac = self.pos > frac_start;
        }
        let mut has_exp = true;
        if self.current_char() == 'e' || self.current_char() == 'E' {
            assert(self.pos < self.input.len());
            self.pos += 1;
            if self.current_char() == '+' || self.current_char() == '-' {
                self.pos += 1;
            }
            let exp_start = self.pos;
            self.skip_digits();
            has_exp = self.pos > exp_start;
        }
        if has_int && has_frac && has_exp {
            self.code.push(Instr::Number { start, end: self.pos });
            assert(self.code@ == old(self).code@ + seq![Instr::Number { start, end: self.pos }]);
            Ok(())
        } else {
            Err(EvalError::InvalidNumberFormat)
        }
    }

    /// Parses the rule `factor`.
    pub fn parse_factor(&mut self) -> (r: Result<(), EvalError>)
        requires
            old(self).wf(),
        ensures
            final(self).follows(old(self), factor(old(self).source(), old(self).position()), r),
        decreases old(self).source().len() - old(self).position(), 0int,
    {
        if self.pos >= self.input.len() {
            return Err(EvalError::UnexpectedEndOfExpression);
        }
        let c = self.input[self.pos];
        if c == '(' {
            self.pos += 1;
            match self.parse_expression() {
                Err(e) => Err(e),
                Ok(()) => {
                    if self.current_char() == ')' {
                        self.pos += 1;
                        Ok(())
                    } else {
                        Err(EvalError::UnbalancedParenthesis)
                    }
                },
            }
        } else if c == '-' {
            self.pos += 1;
            match self.parse_factor() {
                Err(e) => Err(e),
                Ok(()) => {
                    self.code.push(Instr::Negate);
                    Ok(())
                },
            }
        } else if c == '+' {
            self.pos += 1;
            self.parse_factor()
        } else {
            self.parse_number()
        }
    }

    /// Parses the rule `term`.
    pub fn parse_term(&mut self) -> (r: Result<(), EvalError>)
        requires
            old(self).wf(),
        ensures
            final(self).follows(old(self), term(old(self).source(), old(self).position()), r),
        decreases old(self).source().len() - old(self).position(), 2int,
    {
        match self.parse_factor() {
            Err(e) => {
                return Err(e);
            },
            Ok(()) => {},
        }
        let ghost s = self.input@;
        let ghost mut done = factor(s, old(self).pos as int);
        while self.current_char() == '*' || self.current_char() == '/'
            invariant
                self.wf(),
                self.input == old(self).input,
                s == self.input@,
                self.pos > old(self).pos,
                done.fault is None,
                done.next == self.pos,
                self.code@ == old(self).code@ + done.code,
                term_tail(s, done) == term(s, old(self).pos as int),
            decreases self.input.len() - self.pos,
        {
            let op = if self.current_char() == '*' {
                Instr::Multiply
            } else {
                Instr::Divide
            };
            self.pos += 1;
            let ghost operand = factor(s, self.pos as int);
            match self.parse_factor() {
                Err(e) => {
                    assert(self.code@ == old(self).code@ + (done.code + operand.code));
                    return Err(e);
                },
                Ok(()) => {},
            }
            self.code.push(op);
            proof {
                done = joined(done, operand, op);
            }
        }
        Ok(())
    }

    /// Parses the rule `expression`.
    pub fn parse_expression(&mut self) -> (r: Result<(), EvalError>)
        requires
            old(self).wf(),
        ensures
            final(self).follows(old(self), expression(old(self).source(), old(self).position()), r),
        decreases old(self).source().len() - old(self).position(), 4int,
    {
        match self.parse_term() {
            Err(e) => {
                return Err(e);
            },
            Ok(()) => {},
        }
        let ghost s = self.input@;
        let ghost mut done = term(s, old(self).pos as int);
        while self.current_char() == '+' || self.current_char() == '-'
            invariant
                self.wf(),
                self.input == old(self).input,
                s == self.input@,
                self.pos > old(self).pos,
                done.fault is None,
                done.next == self.pos,
                self.code@ == old(self).code@ + done.code,
                expression_tail(s, done) == expression(s, old(self).pos as int),
            decreases self.input.len() - self.pos,
        {
            let op = if self.current_char() == '+' {
                Instr::Add
            } else {
                Instr::Subtract
            };
            self.pos += 1;
            let ghost operand = term(s, self.pos as int);
            match self.parse_term() {
                Err(e) => {
                    assert(self.code@ == old(self).code@ + (done.code + operand.code));
                    return Err(e);
                },
                Ok(()) => {},
            }
            self.code.push(op);
            proof {
                done = joined(done, operand, op);
            }
        }
        Ok(())
    }

    /// Parses an expression to the end of the source: the rule
    /// `expression`, after which nothing may be left.
    pub fn parse(&mut self) -> (r: Result<(), EvalError>)
        requires
            old(self).wf(),
        ensures
            final(self).follows(old(self), rest(old(self).source(), old(self).position()), r),
    {
        match self.parse_expression() {
            Err(e) => Err(e),
            Ok(()) => {
                if self.pos < self.input.len() {
                    Err(EvalError::UnexpectedCharacter)
                } else {
                    Ok(())
                }
            },
        }
    }
}

/// What holds of the parse `p` that a rule yields at `pos`: it ends at or
/// after `pos` and inside the source, further on if it has no fault; its
/// code never takes from the stack what is not there, and leaves one value
/// if it has no fault; its literals lie inside a source whose positions
/// are machine integers, and are what the rule `number` took from it. The
/// parse runs off the end of the source only if it starts there or the
/// source ends open, and its fault is one of reading, not of computing.
pub open spec fn sound(s: Seq<char>, pos: int, p: Parse) -> bool {
    &&& pos <= p.next <= s.len()
    &&& p.fault is None ==> pos < p.next
    &&& stack_safe(p.code)
    &&& p.fault is None ==> height(p.code) == 1
    &&& s.len() <= usize::MAX ==> spans_inside(p.code, s.len() as int) && scanned(s, p.code)
    &&& p.fault == Some(EvalError::UnexpectedEndOfExpression) ==> pos == s.len() || ends_open(s)
    &&& p.fault != Some(EvalError::DivisionByZero)
    &&& p.fault != Some(EvalError::IncompleteExpression)
}

/// A run of digits ends at or after its start and inside the source.
pub proof fn lemma_digits_end(s: Seq<char>, pos: int)
    requires
        0 <= pos <= s.len(),
    ensures
        pos <= digits_end(s, pos) <= s.len(),
    decreases s.len() - pos,
{
    if pos < s.len() && spec_is_digit(s[pos]) {
        lemma_digits_end(s, pos + 1);
    }
}

/// Literals that were taken from a source still were when two codes are
/// joined.
pub proof fn lemma_scanned_concat(s: Seq<char>, a: Seq<Instr>, b: Seq<Instr>)
    requires
        scanned(s, a),
        scanned(s, b),
    ensures
        scanned(s, a + b),
{
    let c = a + b;
    assert forall|k: int| 0 <= k < c.len() implies (#[trigger] c[k] matches Instr::Number {
        start,
        end,
    } ==> unsigned(s, start as int).fault is None && unsigned(s, start as int).next == end) by {
        if k < a.len() {
            assert(c[k] == a[k]);
        } else {
            assert(c[k] == b[k - a.len()]);
        }
    }
}

/// The rule `literal` is sound.
pub proof fn lemma_unsigned_sound(s: Seq<char>, pos: int)
    requires
        0 <= pos <= s.len(),
    ensures
        sound(s, pos, unsigned(s, pos)),
{
    lemma_digits_end(s, pos);
    let int_end = digits_end(s, pos);
    if int_end < s.len() {
        lemma_digits_end(s, int_end + 1);
    }
    let frac_end = if int_end < s.len() && s[int_end] == '.' {
        digits_end(s, int_end + 1)
    } else {
        int_end
    };
    if frac_end < s.len() {
        lemma_digits_end(s, frac_end + 1);
        if frac_end + 1 < s.len() {
            lemma_digits_end(s, frac_end + 2);
        }
    }
    let p = unsigned(s, pos);
    if p.fault is None {
        assert(p.code.len() == 1);
        assert(depth(p.code, 0) == 0);
        assert(height(p.code) == depth(p.code, 0) + delta(p.code[0]));
    }
}

/// The rule `number` is sound.
pub proof fn lemma_number_sound(s: Seq<char>, pos: int)
    requires
        0 <= pos <= s.len(),
    ensures
        sound(s, pos, number(s, pos)),
{
    if pos < s.len() && s[pos] == '-' {
        lemma_unsigned_sound(s, pos + 1);
        let literal = unsigned(s, pos + 1);
        if literal.fault is None {
            lemma_safe_push(literal.code, Instr::Negate);
            if s.len() <= usize::MAX {
                lemma_spans_concat(literal.code, seq![Instr::Negate], s.len() as int);
                lemma_scanned_concat(s, literal.code, seq![Instr::Negate]);
            }
            assert(literal.code.push(Instr::Negate) == literal.code + seq![Instr::Negate]);
        }
    } else {
        lemma_unsigned_sound(s, pos);
    }
}

/// The rule `factor` is sound.
pub proof fn lemma_factor_sound(s: Seq<char>, pos: int)
    requires
        0 <= pos <= s.len(),
    ensures
        sound(s, pos, factor(s, pos)),
    decreases s.len() - pos, 0int,
{
    if pos >= s.len() {
    } else if s[pos] == '(' {
        lemma_expression_sound(s, pos + 1);
    } else if s[pos] == '-' {
        lemma_factor_sound(s, pos + 1);
        let operand = factor(s, pos + 1);
        if operand.fault is None {
            lemma_safe_push(operand.code, Instr::Negate);
            if s.len() <= usize::MAX {
                lemma_spans_concat(operand.code, seq![Instr::Negate], s.len() as int);
                lemma_scanned_concat(s, operand.code, seq![Instr::Negate]);
            }
            assert(operand.code.push(Instr::Negate) == operand.code + seq![Instr::Negate]);
        }
    } else if s[pos] == '+' {
        lemma_factor_sound(s, pos + 1);
    } else {
        lemma_number_sound(s, pos);
    }
}

/// An operator after a sound parse and a sound operand makes a sound parse.
proof fn lemma_join_sound(s: Seq<char>, from: int, done: Parse, operand: Parse, op: Instr)
    requires
        0 <= from,
        sound(s, from, done),
        done.fault is None,
        done.next < s.len(),
        sound(s, done.next + 1, operand),
        s[done.next] == '+' || s[done.next] == '-' || s[done.next] == '*' || s[done.next] == '/',
        needs(op) == 2,
        delta(op) == -1,
        !(op is Number),
    ensures
        operand.fault is Some ==> sound(s, from, broken(done, operand)),
        operand.fault is None ==> sound(s, from, joined(done, operand, op)),
{
    let joined = done.code + operand.code;
    lemma_safe_concat(done.code, operand.code);
    if s.len() <= usize::MAX {
        lemma_spans_concat(done.code, operand.code, s.len() as int);
        lemma_scanned_concat(s, done.code, operand.code);
    }
    if operand.fault is None {
        lemma_safe_push(joined, op);
        if s.len() <= usize::MAX {
            lemma_spans_concat(joined, seq![op], s.len() as int);
            lemma_scanned_concat(s, joined, seq![op]);
        }
        assert(joined.push(op) == joined + seq![op]);
    }
}

/// The rest of a `term` is sound after a sound start.
pub proof fn lemma_term_tail_sound(s: Seq<char>, from: int, done: Parse)
    requires
        0 <= from,
        sound(s, from, done),
        done.fault is None,
    ensures
        sound(s, from, term_tail(s, done)),
    decreases s.len() - done.next, 1int,
{
    if done.next < s.len() && (s[done.next] == '*' || s[done.next] == '/') {
        let operand = factor(s, done.next + 1);
        let op = if s[done.next] == '*' {
            Instr::Multiply
        } else {
            Instr::Divide
        };
        lemma_factor_sound(s, done.next + 1);
        lemma_join_sound(s, from, done, operand, op);
        if advanced(s, done.next + 1, operand) {
            lemma_term_tail_sound(s, from, joined(done, operand, op));
        }
    }
}

/// The rule `term` is sound.
pub proof fn lemma_term_sound(s: Seq<char>, pos: int)
    requires
        0 <= pos <= s.len(),
    ensures
        sound(s, pos, term(s, pos)),
    decreases s.len() - pos, 2int,
{
    lemma_factor_sound(s, pos);
    if advanced(s, pos, factor(s, pos)) {
        lemma_term_tail_sound(s, pos, factor(s, pos));
    }
}

/// The rest of an `expression` is sound after a sound start.
pub proof fn lemma_expression_tail_sound(s: Seq<char>, from: int, done: Parse)
    requires
        0 <= from,
        sound(s, from, done),
        done.fault is None,
    ensures
        sound(s, from, expression_tail(s, done)),
    decreases s.len() - done.next, 3int,
{
    if done.next < s.len() && (s[done.next] == '+' || s[done.next] == '-') {
        let operand = term(s, done.next + 1);
        let op = if s[done.next] == '+' {
            Instr::Add
        } else {
            Instr::Subtract
        };
        lemma_term_sound(s, done.next + 1);
        lemma_join_sound(s, from, done, operand, op);
        if advanced(s, done.next + 1, operand) {
            lemma_expression_tail_sound(s, from, joined(done, operand, op));
        }
    }
}

/// The rule `expression` is sound.
pub proof fn lemma_expression_sound(s: Seq<char>, pos: int)
    requires
        0 <= pos <= s.len(),
    ensures
        sound(s, pos, expression(s, pos)),
    decreases s.len() - pos, 4int,
{
    lemma_term_sound(s, pos);
    if advanced(s, pos, term(s, pos)) {
        lemma_expression_tail_sound(s, pos, term(s, pos));
    }
}

/// The code of every source can be run: no instruction finds the stack
/// too low, every literal lies inside the source, and where there is no
/// fault the code of a source that is not empty leaves exactly one value.
/// A source that ends open is incomplete, so the parser never runs off
/// the end of a source; and a division by zero is no fault of a source.
pub proof fn lemma_program_sound(s: Seq<char>)
    ensures
        program(s).fault != Some(EvalError::UnexpectedEndOfExpression),
        program(s).fault != Some(EvalError::DivisionByZero),
        stack_safe(program(s).code),
        s.len() <= usize::MAX ==> spans_inside(program(s).code, s.len() as int) && scanned(
            s,
            program(s).code,
        ),
        program(s).fault is None ==> height(program(s).code) == if s.len() == 0 {
            0int
        } else {
            1int
        },
{
    if s.len() == 0 || ends_open(s) {
        assert(height(Seq::<Instr>::empty()) == 0);
    } else {
        lemma_expression_sound(s, 0);
    }
}

/// Inside a range of the source, a run of digits ends where it ends in
/// the source, or where the range ends.
pub proof fn lemma_digits_end_within(s: Seq<char>, from: int, to: int, pos: int)
    requires
        0 <= from <= pos <= to <= s.len(),
    ensures
        digits_end(s.subrange(from, to), pos - from) == if digits_end(s, pos) <= to {
            digits_end(s, pos) - from
        } else {
            to - from
        },
    decreases to - pos,
{
    let t = s.subrange(from, to);
    lemma_digits_end(s, pos);
    if pos < to {
        assert(t[pos - from] == s[pos]);
        if spec_is_digit(s[pos]) {
            lemma_digits_end_within(s, from, to, pos + 1);
        }
    }
}

/// What the rule `literal` takes from a source is, taken by itself, a
/// literal of the grammar.
pub proof fn lemma_scanned_is_literal(s: Seq<char>, pos: int)
    requires
        0 <= pos <= s.len(),
        unsigned(s, pos).fault is None,
    ensures
        is_literal(s.subrange(pos, unsigned(s, pos).next)),
{
    lemma_unsigned_sound(s, pos);
    let end = unsigned(s, pos).next;
    let t = s.subrange(pos, end);
    let int_end = digits_end(s, pos);
    lemma_digits_end(s, pos);
    lemma_digits_end_within(s, pos, end, pos);
    assert(digits_end(t, 0) == int_end - pos);
    let has_point = int_end < s.len() && s[int_end] == '.';
    if has_point {
        lemma_digits_end(s, int_end + 1);
        lemma_digits_end_within(s, pos, end, int_end + 1);
    }
    let frac_end = if has_point {
        digits_end(s, int_end + 1)
    } else {
        int_end
    };
    if int_end < end {
        assert(t[int_end - pos] == s[int_end]);
    }
    let has_exp = frac_end < s.len() && (s[frac_end] == 'e' || s[frac_end] == 'E');
    if frac_end < end {
        assert(t[frac_end - pos] == s[frac_end]);
    }
    if has_exp {
        let has_sign = frac_end + 1 < s.len() && (s[frac_end + 1] == '+' || s[frac_end + 1]
            == '-');
        let exp_start = if has_sign {
            frac_end + 2
        } else {
            frac_end + 1
        };
        lemma_digits_end(s, exp_start);
        if frac_end + 1 < end {
            assert(t[frac_end + 1 - pos] == s[frac_end + 1]);
        }
        lemma_digits_end_within(s, pos, end, exp_start);
    }
}

/// Compiles a normalized source: its code and, if there is one, the fault
/// that ends it.
pub fn compile(source: &[char]) -> (compiled: (Vec<Instr>, Option<EvalError>))
    ensures
        compiled.0@ == program(source@).code,
        compiled.1 == program(source@).fault,
{
    let n = source.len();
    if n == 0 {
        return (Vec::new(), None);
    }
    let last = source[n - 1];
    if last == '+' || last == '-' || last == '*' || last == '/' || last == '(' || last == '.' {
        return (Vec::new(), Some(EvalError::IncompleteExpression));
    }
    let mut parser = ExpressionParser::new(source);
    let fault = match parser.parse() {
        Ok(()) => None,
        Err(e) => Some(e),
    };
    (parser.into_code(), fault)
}

} // verus!
