//! What can be wrong with a line, and how it is told.
use vstd::prelude::*;
use vstd::string::StringExecFns;

verus! {

/// The ways in which a line can fail to be a syscall record.
#[derive(Clone, Copy, Debug, PartialEq, Eq)]
pub enum ParseErrorKind {
    /// No `(` with a name in front of it, or no `)` after it.
    MissingDelimiter,
    /// No `=` between the argument list and the result.
    MissingSeparator,
    /// No number after the `=`, or one that an `i8` cannot hold.
    MalformedResult,
}

impl ParseErrorKind {
    /// The sentence that describes the failure.
    pub open spec fn cause(self) -> Seq<char> {
        match self {
            ParseErrorKind::MissingDelimiter => "no `(` after a syscall name, or no `)` to close the argument list"@,
            ParseErrorKind::MissingSeparator => "no `=` between the argument list and the result"@,
            ParseErrorKind::MalformedResult => "the result is not a decimal number that fits"@,
        }
    }

    /// The sentence that describes the failure.
    pub fn describe(self) -> (text: &'static str)
        ensures
            text@ == self.cause(),
    {
        match self {
            ParseErrorKind::MissingDelimiter => "no `(` after a syscall name, or no `)` to close the argument list",
            ParseErrorKind::MissingSeparator => "no `=` between the argument list and the result",
            ParseErrorKind::MalformedResult => "the result is not a decimal number that fits",
        }
    }
}

/// A line that is no syscall record, with what was wrong with it.
#[derive(Clone, Copy, Debug, PartialEq, Eq)]
pub struct ParseFailure<'a> {
    /// The whole line, as it was given.
    pub line: &'a str,
    /// Which part of the grammar the line broke.
    pub kind: ParseErrorKind,
}

/// What is said of a `line` that failed with `kind`.
pub open spec fn failure_text(line: Seq<char>, kind: ParseErrorKind) -> Seq<char> {
    "Could not parse "@ + line + ": "@ + kind.cause()
}

impl<'a> ParseFailure<'a> {
    /// A message for a reader: the line, then the cause.
    pub fn message(&self) -> (text: String)
        ensures
            text@ == failure_text(self.line@, self.kind),
    {
        let mut text = String::from_str("Could not parse ");
        text.append(self.line);
        text.append(": ");
        text.append(self.kind.describe());
        text
    }
}

} // verus!
