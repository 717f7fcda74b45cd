//! The ways in which an evaluation can fail.

use vstd::prelude::*;

verus! {

/// Why an expression has no value. None of these ends a session: the
/// expression stays editable.
#[derive(Clone, Copy, Debug, PartialEq, Eq, Structural)]
pub enum EvalError {
    /// The expression ends in an operator, an opening parenthesis or a
    /// decimal point: the user is still typing.
    IncompleteExpression,
    /// A divisor was exactly zero.
    DivisionByZero,
    /// A number was expected and what stands there is none.
    InvalidNumberFormat,
    /// The expression was read to its end and characters are left over.
    UnexpectedCharacter,
    /// An opening parenthesis has no closing one.
    UnbalancedParenthesis,
    /// The input ends where an operand should start.
    UnexpectedEndOfExpression,
}

impl EvalError {
    /// The words that describe the error.
    pub open spec fn spec_message(self) -> Seq<char> {
        match self {
            EvalError::IncompleteExpression => "Incomplete expression"@,
            EvalError::DivisionByZero => "Division by zero"@,
            EvalError::InvalidNumberFormat => "Invalid number format"@,
            EvalError::UnexpectedCharacter => "Unexpected character"@,
            EvalError::UnbalancedParenthesis => "Missing closing parenthesis"@,
            EvalError::UnexpectedEndOfExpression => "Unexpected end of expression"@,
        }
    }

    /// The words that describe the error.
    pub fn message(&self) -> (text: &'static str)
        ensures
            text@ == self.spec_message(),
    {
        match self {
            EvalError::IncompleteExpression => "Incomplete expression",
            EvalError::DivisionByZero => "Division by zero",
            EvalError::InvalidNumberFormat => "Invalid number format",
            EvalError::UnexpectedCharacter => "Unexpected character",
            EvalError::UnbalancedParenthesis => "Missing closing parenthesis",
            EvalError::UnexpectedEndOfExpression => "Unexpected end of expression",
        }
    }
}

} // verus!
