//! The grammar of a trace line, as functions over sequences of characters.
//!
//! Each scanner of the grammar is described here by what it makes of a text:
//! the rest that it leaves and the value that it found, or the kind of
//! failure.
use crate::error::ParseErrorKind;
use crate::number::{decimal, fits_i8, signed};
use crate::text::{span, split, within, CharClass};
use vstd::prelude::*;

verus! {

/// What an argument is, over plain text.
pub enum ArgView {
    /// A null pointer.
    Null,
    /// The argument's text, untouched.
    String(Seq<char>),
    /// The names joined by `|` in the argument, two or more, in order.
    Flags(Seq<Seq<char>>),
}

/// What a syscall record is, over plain text.
pub struct SysCallView {
    /// The name of the syscall.
    pub name: Seq<char>,
    /// The arguments, in the order of the line.
    pub args: Seq<ArgView>,
    /// The value that the call returned.
    pub result: int,
}

/// Whether `s` is an identifier as in C: a letter or `_`, then letters,
/// digits and `_`.
pub open spec fn is_identifier(s: Seq<char>) -> bool {
    &&& s.len() > 0
    &&& CharClass::IdentStart.has(s[0])
    &&& within(s, CharClass::IdentPart)
}

/// Whether `s` is two or more identifiers joined by `|`. One identifier
/// alone is no set of flags: nothing is joined in it.
pub open spec fn is_flag_set(s: Seq<char>) -> bool {
    &&& split(s, '|').len() >= 2
    &&& forall|i: int| 0 <= i < split(s, '|').len() ==> is_identifier(#[trigger] split(s, '|')[i])
}

/// The word that stands for a null pointer.
pub open spec fn null_word() -> Seq<char> {
    seq!['N', 'U', 'L', 'L']
}

/// What the argument `token` is. Whitespace in front of the token is not
/// looked at; the text of a `String` keeps it.
pub open spec fn classify(token: Seq<char>) -> ArgView {
    let word = token.skip(span(token, CharClass::Space) as int);
    if word == null_word() {
        ArgView::Null
    } else if is_flag_set(word) {
        ArgView::Flags(split(word, '|'))
    } else {
        ArgView::String(token)
    }
}

impl ArgView {
    /// Whether the argument is one that an argument list can hold: text
    /// without `,` and `)`, or at least two names, each an identifier.
    pub open spec fn well_formed(self) -> bool {
        match self {
            ArgView::Null => true,
            ArgView::String(text) => within(text, CharClass::ExceptEither(',', ')')),
            ArgView::Flags(names) => {
                &&& names.len() >= 2
                &&& forall|i: int| 0 <= i < names.len() ==> is_identifier(#[trigger] names[i])
            },
        }
    }
}

impl SysCallView {
    /// Whether the record is one that a line can hold: a name that is not
    /// empty and has no `(` in it, arguments that are all well formed, and a
    /// result that an `i8` can hold.
    pub open spec fn well_formed(self) -> bool {
        &&& self.name.len() > 0
        &&& within(self.name, CharClass::Except('('))
        &&& forall|i: int| 0 <= i < self.args.len() ==> (#[trigger] self.args[i]).well_formed()
        &&& fits_i8(self.result)
    }
}

/// Each of the `tokens`, classified.
pub open spec fn classify_all(tokens: Seq<Seq<char>>) -> Seq<ArgView> {
    Seq::new(tokens.len(), |i: int| classify(tokens[i]))
}

/// The argument tokens in the text between `(` and `)`: none if there is no
/// text, else the pieces between the commas.
pub open spec fn tokens(inner: Seq<char>) -> Seq<Seq<char>> {
    if inner.len() == 0 {
        Seq::empty()
    } else {
        split(inner, ',')
    }
}

/// The argument at the start of `s`: the text before the first `,` or `)`,
/// or all of `s` if it holds neither, classified.
pub open spec fn spec_arg_raw_str(s: Seq<char>) -> (Seq<char>, ArgView) {
    let n: int = span(s, CharClass::ExceptEither(',', ')')) as int;
    (s.skip(n), classify(s.take(n)))
}

/// The syscall name at the start of `s`: the text before the first `(`,
/// which must be there and must not come first.
pub open spec fn spec_syscall_name(s: Seq<char>) -> Result<(Seq<char>, Seq<char>), ParseErrorKind> {
    let n: int = span(s, CharClass::Except('(')) as int;
    if 0 < n < s.len() {
        Ok((s.skip(n), s.take(n)))
    } else {
        Err(ParseErrorKind::MissingDelimiter)
    }
}

/// The argument list at the start of `s`: a `(`, the tokens up to the first
/// `)`, and that `)`.
pub open spec fn spec_syscall_args(s: Seq<char>) -> Result<
    (Seq<char>, Seq<ArgView>),
    ParseErrorKind,
> {
    let n: int = span(s.skip(1), CharClass::Except(')')) as int;
    if s.len() > 0 && s[0] == '(' && n + 1 < s.len() {
        Ok((s.skip(n + 2), classify_all(tokens(s.subrange(1, n + 1)))))
    } else {
        Err(ParseErrorKind::MissingDelimiter)
    }
}

/// The separator at the start of `s`: a `=`, with any whitespace before and
/// after it. What is left is the text after that whitespace.
pub open spec fn spec_syscall_separator(s: Seq<char>) -> Result<Seq<char>, ParseErrorKind> {
    let before: int = span(s, CharClass::Space) as int;
    let after: int = span(s.skip(before + 1), CharClass::Space) as int;
    if before < s.len() && s[before] == '=' {
        Ok(s.skip(before + 1 + after))
    } else {
        Err(ParseErrorKind::MissingSeparator)
    }
}

/// The result at the start of `s`: a `-` or none, then decimal digits, at
/// least one and as many as there are, that denote what an `i8` can hold.
pub open spec fn spec_syscall_result(s: Seq<char>) -> Result<(Seq<char>, int), ParseErrorKind> {
    let negative = s.len() > 0 && s[0] == '-';
    let start: int = if negative { 1 } else { 0 };
    let n: int = span(s.skip(start), CharClass::Digit) as int;
    let value: int = signed(decimal(s.subrange(start, start + n)), negative);
    if n > 0 && fits_i8(value) {
        Ok((s.skip(start + n), value))
    } else {
        Err(ParseErrorKind::MalformedResult)
    }
}

/// The record at the start of `s`: name, argument list, separator and
/// result, one after the other. What follows the result is left over.
pub open spec fn spec_parse_syscall_line(s: Seq<char>) -> Result<
    (Seq<char>, SysCallView),
    ParseErrorKind,
> {
    match spec_syscall_name(s) {
        Err(kind) => Err(kind),
        Ok((after_name, name)) => match spec_syscall_args(after_name) {
            Err(kind) => Err(kind),
            Ok((after_args, args)) => match spec_syscall_separator(after_args) {
                Err(kind) => Err(kind),
                Ok(after_separator) => match spec_syscall_result(after_separator) {
                    Err(kind) => Err(kind),
                    Ok((rest, result)) => Ok((rest, SysCallView { name, args, result })),
                },
            },
        },
    }
}

/// The record that the line `s` holds, or why it holds none.
pub open spec fn spec_parse_log_line(s: Seq<char>) -> Result<SysCallView, ParseErrorKind> {
    match spec_parse_syscall_line(s) {
        Ok((_, call)) => Ok(call),
        Err(kind) => Err(kind),
    }
}

} // verus!
