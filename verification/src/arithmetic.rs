//! What the engine asks of its caller, and what it takes back.
//!
//! The engine carries doubles as bit patterns and does no arithmetic on
//! them. It names the operation it needs in a [`Request`]; the caller
//! performs it on the doubles that the patterns stand for and hands the
//! result back in a [`Reply`].

use vstd::prelude::*;

verus! {

/// One operation on doubles that the caller is asked to perform.
#[derive(Debug, PartialEq, Eq)]
pub enum Request {
    /// The double nearest to a decimal literal. Answered by a number.
    Literal(String),
    /// The sum of two doubles. Answered by a number.
    Add(u64, u64),
    /// The first double minus the second. Answered by a number.
    Subtract(u64, u64),
    /// The product of two doubles. Answered by a number.
    Multiply(u64, u64),
    /// The first double divided by the second, which is not zero.
    /// Answered by a number.
    Divide(u64, u64),
    /// Two renderings of a finite double: with eight digits after the
    /// point, and in scientific notation with six. Answered by digits.
    Digits(u64),
}

/// A [`Request`] as a value of specifications.
pub enum RequestView {
    Literal(Seq<char>),
    Add(u64, u64),
    Subtract(u64, u64),
    Multiply(u64, u64),
    Divide(u64, u64),
    Digits(u64),
}

impl View for Request {
    type V = RequestView;

    open spec fn view(&self) -> RequestView {
        match self {
            Request::Literal(text) => RequestView::Literal(text@),
            Request::Add(a, b) => RequestView::Add(*a, *b),
            Request::Subtract(a, b) => RequestView::Subtract(*a, *b),
            Request::Multiply(a, b) => RequestView::Multiply(*a, *b),
            Request::Divide(a, b) => RequestView::Divide(*a, *b),
            Request::Digits(bits) => RequestView::Digits(*bits),
        }
    }
}

/// The answer to a [`Request`].
#[derive(Debug, PartialEq, Eq)]
pub enum Reply {
    /// The bit pattern of a double.
    Number(u64),
    /// The two renderings of a double.
    Digits { fixed: String, scientific: String },
}

/// A [`Reply`] as a value of specifications.
pub enum ReplyView {
    Number(u64),
    Digits { fixed: Seq<char>, scientific: Seq<char> },
}

impl View for Reply {
    type V = ReplyView;

    open spec fn view(&self) -> ReplyView {
        match self {
            Reply::Number(bits) => ReplyView::Number(*bits),
            Reply::Digits { fixed, scientific } => ReplyView::Digits {
                fixed: fixed@,
                scientific: scientific@,
            },
        }
    }
}

/// The view of a request that may be absent.
pub open spec fn view_of(request: Option<Request>) -> Option<RequestView> {
    match request {
        Some(q) => Some(q@),
        None => None,
    }
}

} // verus!
