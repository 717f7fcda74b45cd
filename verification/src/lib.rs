//! An incremental arithmetic-expression engine.
//!
//! The engine edits an expression one key press at a time, compiles it with a
//! recursive-descent parser and evaluates it in IEEE-754 double precision.
//! Doubles are carried as their 64-bit patterns. The engine decides everything
//! itself but the arithmetic on those patterns: whenever it needs a sum, a
//! quotient, the value of a literal or the digits of a result, it hands the
//! caller an [`arithmetic::Request`] and goes on with the answer.
//!
//! - [`calculator`] holds the calculator and its keys; [`session`] says what
//!   each key does, and what every session keeps.
//! - [`syntax`] holds the grammar and the parser, [`postfix`] the code that
//!   the parser emits, [`evaluation`] the machine that runs it.
//! - [`meaning`] says what an expression is worth under an arithmetic, and
//!   shows that an evaluation ends with that; [`division`] that a division
//!   by a zero literal is an error wherever it stands; [`settling`] that the
//!   display follows the expression; [`continuation`] that a result can be
//!   computed with.
//! - [`format`] renders a double for the display, [`ieee`] reads doubles as
//!   bit patterns, [`text`] moves between strings and characters.
//! - [`keyboard_handler`], [`logger`] and [`system_utils`] serve the program
//!   around the calculator: its keyboard, its log and its theme.

pub mod arithmetic;
pub mod calculator;
pub mod continuation;
pub mod division;
pub mod error;
pub mod evaluation;
pub mod format;
pub mod ieee;
pub mod keyboard_handler;
pub mod logger;
pub mod meaning;
pub mod postfix;
pub mod session;
pub mod settling;
pub mod syntax;
pub mod system_utils;
pub mod text;
