//! The scanners of the grammar, and the assembler that runs them on a line.
//!
//! A scanner takes a text, consumes a prefix of it and returns what is left
//! together with what it found. All text that comes back is borrowed from
//! the input.
use crate::error::{ParseErrorKind, ParseFailure};
use crate::grammar::{
    classify, classify_all, is_identifier, null_word, spec_arg_raw_str, spec_parse_log_line,
    spec_parse_syscall_line, spec_syscall_args, spec_syscall_name, spec_syscall_result,
    spec_syscall_separator, tokens, ArgView, SysCallView,
};
use crate::laws::lemma_record_is_well_formed;
use crate::number::read_i8;
use crate::text::{cut, is_end_of, scan, slices, span, split, to_chars, within, CharClass};
use vstd::prelude::*;

verus! {

/// One argument of a syscall.
#[derive(Clone, Debug, PartialEq, Eq)]
pub enum Arg<'a> {
    /// A null pointer, written `NULL`.
    Null,
    /// Any other argument: its text, untouched.
    String(&'a str),
    /// Two or more names joined by `|`, in the order in which they were
    /// written.
    Flags(Vec<&'a str>),
}

/// The characters of each of the `names`.
pub open spec fn texts(names: Seq<&str>) -> Seq<Seq<char>> {
    Seq::new(names.len(), |i: int| names[i]@)
}

impl<'a> View for Arg<'a> {
    type V = ArgView;

    open spec fn view(&self) -> ArgView {
        match self {
            Arg::Null => ArgView::Null,
            Arg::String(text) => ArgView::String(text@),
            Arg::Flags(names) => ArgView::Flags(texts(names@)),
        }
    }
}

/// One line of a trace: a syscall, its arguments and what it returned.
#[derive(Clone, Debug, PartialEq, Eq)]
pub struct SysCall<'a> {
    /// The name of the syscall.
    pub name: &'a str,
    /// The arguments, in the order of the line.
    pub args: Vec<Arg<'a>>,
    /// The value that the call returned.
    pub result: i8,
}

/// The view of each of the `args`.
pub open spec fn arg_views(args: Seq<Arg>) -> Seq<ArgView> {
    Seq::new(args.len(), |i: int| args[i]@)
}

impl<'a> View for SysCall<'a> {
    type V = SysCallView;

    open spec fn view(&self) -> SysCallView {
        SysCallView { name: self.name@, args: arg_views(self.args@), result: self.result as int }
    }
}

/// Whether `chars[from..to]` is the word for a null pointer.
fn is_null(chars: &[char], from: usize, to: usize) -> (yes: bool)
    requires
        from <= to <= chars.len(),
    ensures
        yes == (chars@.subrange(from as int, to as int) == null_word()),
{
    let ghost word = chars@.subrange(from as int, to as int);
    assert(null_word().len() == 4);
    if to - from == 4 {
        let yes = chars[from] == 'N' && chars[from + 1] == 'U' && chars[from + 2] == 'L' && chars[from
            + 3] == 'L';
        proof {
            assert(word[0] == chars@[from + 0] && word[1] == chars@[from + 1] && word[2]
                == chars@[from + 2] && word[3] == chars@[from + 3]);
            assert(null_word()[0] == 'N' && null_word()[1] == 'U' && null_word()[2] == 'L'
                && null_word()[3] == 'L');
            if yes {
                assert(word =~= null_word());
            }
        }
        yes
    } else {
        false
    }
}

/// Whether `chars[from..to]` is an identifier.
fn is_ident(chars: &[char], from: usize, to: usize) -> (yes: bool)
    requires
        from <= to <= chars.len(),
    ensures
        yes == is_identifier(chars@.subrange(from as int, to as int)),
{
    let ghost word = chars@.subrange(from as int, to as int);
    if from == to || !CharClass::IdentStart.contains(chars[from]) {
        return false;
    }
    let end: usize = scan(chars, from, to, CharClass::IdentPart);
    proof {
        if end == to {
            assert forall|i: int| 0 <= i < word.len() implies CharClass::IdentPart.has(
                #[trigger] word[i],
            ) by {
                assert(word[i] == chars@[from + i]);
            }
        } else {
            assert(word[end - from] == chars@[end as int]);
        }
    }
    end == to
}

/// Says what the argument `token` is: a null pointer, a set of two or
/// more flags, or text of no known shape. Whitespace in front of the token is not looked
/// at, but the text of a `String` keeps it.
pub fn classify_arg<'a>(token: &'a str) -> (arg: Arg<'a>)
    ensures
        arg@ == classify(token@),
{
    let chars = to_chars(token);
    let start: usize = scan(chars.as_slice(), 0, chars.len(), CharClass::Space);
    let ghost word = token@.skip(start as int);
    assert(chars@.subrange(0, chars.len() as int) == token@);
    assert(chars@.subrange(start as int, chars.len() as int) == word);
    if is_null(chars.as_slice(), start, chars.len()) {
        return Arg::Null;
    }
    let pieces = cut(chars.as_slice(), start, chars.len(), '|');
    assert(slices(chars@, pieces@).len() == pieces.len());
    if pieces.len() < 2 {
        return Arg::String(token);
    }
    let mut names: Vec<&'a str> = Vec::new();
    let mut i: usize = 0;
    while i < pieces.len()
        invariant
            chars@ == token@,
            word == token@.skip(span(token@, CharClass::Space) as int),
            word != null_word(),
            i <= pieces.len(),
            split(word, '|').len() == pieces.len(),
            names.len() == i,
            slices(chars@, pieces@) == split(word, '|'),
            forall|k: int|
                0 <= k < pieces@.len() ==> start <= (#[trigger] pieces@[k]).0 <= pieces@[k].1
                    <= chars.len(),
            forall|k: int| 0 <= k < i ==> (#[trigger] names@[k])@ == split(word, '|')[k],
            forall|k: int| 0 <= k < i ==> is_identifier(#[trigger] split(word, '|')[k]),
        decreases pieces.len() - i,
    {
        let (from, to) = pieces[i];
        assert(slices(chars@, pieces@)[i as int] == chars@.subrange(from as int, to as int));
        if !is_ident(chars.as_slice(), from, to) {
            assert(!is_identifier(split(word, '|')[i as int]));
            return Arg::String(token);
        }
        names.push(token.substring_char(from, to));
        i += 1;
    }
    assert(texts(names@) == split(word, '|'));
    Arg::Flags(names)
}

/// Takes the argument at the start of `s`: the text before the first `,`
/// or `)`, classified. It never fails; the argument may be empty.
pub fn arg_raw_str<'a>(s: &'a str) -> (out: Result<(&'a str, Arg<'a>), ParseErrorKind>)
    ensures
        out matches Ok((rest, arg)) && (rest@, arg@) == spec_arg_raw_str(s@),
        out matches Ok((rest, arg)) && rest@ == s@.skip(
            span(s@, CharClass::ExceptEither(',', ')')) as int,
        ) && arg@ == classify(s@.take(span(s@, CharClass::ExceptEither(',', ')')) as int)),
{
    let chars = to_chars(s);
    let end: usize = scan(chars.as_slice(), 0, chars.len(), CharClass::ExceptEither(',', ')'));
    assert(chars@.subrange(0, chars.len() as int) == s@);
    Ok((s.substring_char(end, chars.len()), classify_arg(s.substring_char(0, end))))
}

/// Takes the syscall name at the start of `s`: the text before the first
/// `(`. It fails if `s` holds no `(` or starts with it.
pub fn syscall_name<'a>(s: &'a str) -> (out: Result<(&'a str, &'a str), ParseErrorKind>)
    ensures
        match out {
            Ok((rest, name)) => spec_syscall_name(s@) == Ok::<_, ParseErrorKind>((rest@, name@)),
            Err(kind) => spec_syscall_name(s@) == Err::<(Seq<char>, Seq<char>), _>(kind),
        },
{
    let chars = to_chars(s);
    let end: usize = scan(chars.as_slice(), 0, chars.len(), CharClass::Except('('));
    assert(chars@.subrange(0, chars.len() as int) == s@);
    if 0 < end && end < chars.len() {
        Ok((s.substring_char(end, chars.len()), s.substring_char(0, end)))
    } else {
        Err(ParseErrorKind::MissingDelimiter)
    }
}

/// Takes the argument list at the start of `s`: a `(`, the arguments up to
/// the first `)`, and that `)`. The text between the two is cut at each `,`
/// and each piece classified; no text at all means no argument. It fails if
/// `s` does not start with `(` or holds no `)`.
pub fn syscall_args<'a>(s: &'a str) -> (out: Result<(&'a str, Vec<Arg<'a>>), ParseErrorKind>)
    ensures
        match out {
            Ok((rest, args)) => spec_syscall_args(s@) == Ok::<_, ParseErrorKind>(
                (rest@, arg_views(args@)),
            ),
            Err(kind) => spec_syscall_args(s@) == Err::<(Seq<char>, Seq<ArgView>), _>(kind),
        },
{
    let chars = to_chars(s);
    if chars.len() == 0 || chars[0] != '(' {
        return Err(ParseErrorKind::MissingDelimiter);
    }
    let close: usize = scan(chars.as_slice(), 1, chars.len(), CharClass::Except(')'));
    assert(chars@.subrange(1, chars.len() as int) == s@.skip(1));
    if close == chars.len() {
        return Err(ParseErrorKind::MissingDelimiter);
    }
    let ghost inner = s@.subrange(1, close as int);
    let mut args: Vec<Arg<'a>> = Vec::new();
    if close > 1 {
        let pieces = cut(chars.as_slice(), 1, close, ',');
        assert(slices(chars@, pieces@).len() == pieces.len());
        let mut i: usize = 0;
        while i < pieces.len()
            invariant
                chars@ == s@,
                inner == s@.subrange(1, close as int),
                1 < close < chars.len(),
                i <= pieces.len(),
                args.len() == i,
                split(inner, ',').len() == pieces.len(),
                slices(chars@, pieces@) == split(inner, ','),
                forall|k: int|
                    0 <= k < pieces@.len() ==> 1 <= (#[trigger] pieces@[k]).0 <= pieces@[k].1
                        <= close,
                forall|k: int| 0 <= k < i ==> (#[trigger] args@[k])@ == classify(split(inner, ',')[k]),
            decreases pieces.len() - i,
        {
            let (from, to) = pieces[i];
            assert(slices(chars@, pieces@)[i as int] == chars@.subrange(from as int, to as int));
            args.push(classify_arg(s.substring_char(from, to)));
            i += 1;
        }
    }
    assert(arg_views(args@) == classify_all(tokens(inner)));
    Ok((s.substring_char(close + 1, chars.len()), args))
}

/// Takes the separator at the start of `s`: a `=`, with any whitespace
/// before and after it. It fails if something else comes first.
pub fn syscall_separator<'a>(s: &'a str) -> (out: Result<&'a str, ParseErrorKind>)
    ensures
        match out {
            Ok(rest) => spec_syscall_separator(s@) == Ok::<_, ParseErrorKind>(rest@),
            Err(kind) => spec_syscall_separator(s@) == Err::<Seq<char>, _>(kind),
        },
{
    let chars = to_chars(s);
    let at: usize = scan(chars.as_slice(), 0, chars.len(), CharClass::Space);
    assert(chars@.subrange(0, chars.len() as int) == s@);
    if at < chars.len() && chars[at] == '=' {
        let end: usize = scan(chars.as_slice(), at + 1, chars.len(), CharClass::Space);
        assert(chars@.subrange(at + 1, chars.len() as int) == s@.skip(at + 1));
        Ok(s.substring_char(end, chars.len()))
    } else {
        Err(ParseErrorKind::MissingSeparator)
    }
}

/// Takes the result at the start of `s`: a `-` or none, then all the decimal
/// digits that follow. It fails if there is no digit, or if the number does
/// not fit in an `i8`.
pub fn syscall_result<'a>(s: &'a str) -> (out: Result<(&'a str, i8), ParseErrorKind>)
    ensures
        match out {
            Ok((rest, value)) => spec_syscall_result(s@) == Ok::<_, ParseErrorKind>(
                (rest@, value as int),
            ),
            Err(kind) => spec_syscall_result(s@) == Err::<(Seq<char>, int), _>(kind),
        },
{
    let chars = to_chars(s);
    let negative = chars.len() > 0 && chars[0] == '-';
    let start: usize = if negative {
        1
    } else {
        0
    };
    let end: usize = scan(chars.as_slice(), start, chars.len(), CharClass::Digit);
    assert(chars@.subrange(start as int, chars.len() as int) == s@.skip(start as int));
    assert(within(chars@.subrange(start as int, end as int), CharClass::Digit));
    match read_i8(chars.as_slice(), start, end, negative) {
        Some(value) => Ok((s.substring_char(end, chars.len()), value)),
        None => Err(ParseErrorKind::MalformedResult),
    }
}

/// Takes the syscall record at the start of `s`: name, argument list,
/// separator and result, one after the other. What follows the result is
/// handed back. The first scanner that fails decides the error.
pub fn parse_syscall_line<'a>(s: &'a str) -> (out: Result<(&'a str, SysCall<'a>), ParseErrorKind>)
    ensures
        match out {
            Ok((rest, call)) => spec_parse_syscall_line(s@) == Ok::<_, ParseErrorKind>(
                (rest@, call@),
            ),
            Err(kind) => spec_parse_syscall_line(s@) == Err::<(Seq<char>, SysCallView), _>(kind),
        },
        out matches Ok((rest, call)) ==> call@.well_formed() && is_end_of(rest@, s@),
{
    proof {
        lemma_record_is_well_formed(s@);
    }
    let (after_name, name) = match syscall_name(s) {
        Ok(found) => found,
        Err(kind) => { return Err(kind); },
    };
    let (after_args, args) = match syscall_args(after_name) {
        Ok(found) => found,
        Err(kind) => { return Err(kind); },
    };
    let after_separator = match syscall_separator(after_args) {
        Ok(found) => found,
        Err(kind) => { return Err(kind); },
    };
    let (rest, result) = match syscall_result(after_separator) {
        Ok(found) => found,
        Err(kind) => { return Err(kind); },
    };
    Ok((rest, SysCall { name, args, result }))
}

/// Parses one line of a trace. The answer is the record that the line
/// starts with, or the line itself with what was wrong with it.
pub fn parse_log_line<'a>(s: &'a str) -> (out: Result<SysCall<'a>, ParseFailure<'a>>)
    ensures
        match out {
            Ok(call) => spec_parse_log_line(s@) == Ok::<_, ParseErrorKind>(call@),
            Err(failure) => failure.line@ == s@ && spec_parse_log_line(s@) == Err::<SysCallView, _>(
                failure.kind,
            ),
        },
        out matches Ok(call) ==> call@.well_formed(),
{
    match parse_syscall_line(s) {
        Ok((_, call)) => Ok(call),
        Err(kind) => Err(ParseFailure { line: s, kind }),
    }
}

} // verus!
