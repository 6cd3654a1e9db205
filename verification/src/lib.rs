//! Parsing of `strace(1)` output lines into syscall records.
//!
//! A line of the shape `name(arg, arg, ...) = result` is taken apart by a
//! handful of scanners, each of which consumes a prefix of its input and
//! hands back the rest. Every scanner is described by a function over
//! sequences of characters and proved to compute it.
//!
//! - [`parser`] holds the scanners, the records that they build, and
//!   [`parser::parse_log_line`], which runs them on one line.
//! - [`grammar`] says what each scanner makes of a text.
//! - [`laws`] proves what follows: which lines are parsed, which fail and
//!   how, and what holds of every record.
//! - [`error`] holds the kinds of failure and their messages.
//! - [`text`] and [`number`] hold what the scanners are made of: character
//!   classes, spans, cutting and joining, and decimal numerals.
pub mod error;
pub mod grammar;
pub mod laws;
pub mod number;
pub mod parser;
pub mod text;
