//! What holds of the grammar as a whole.
//!
//! First, which lines are parsed: exactly those of the shape
//! `name(arg,arg,...) = numeral`, and what the record of such a line is.
//! Then what each kind of argument looks like, which lines fail and how, and
//! last what holds of every outcome.
use crate::error::ParseErrorKind;
use crate::grammar::{
    classify, classify_all, is_flag_set, is_identifier, null_word, spec_parse_log_line,
    spec_parse_syscall_line, spec_syscall_args, spec_syscall_name, spec_syscall_result,
    spec_syscall_separator, tokens, ArgView, SysCallView,
};
use crate::number::{decimal, fits_i8, signed};
use crate::text::{
    all_within, is_end_of, join, lemma_end_within, lemma_join_split, lemma_join_within,
    lemma_span_covers, lemma_span_is, lemma_span_stops, lemma_split_join, lemma_split_within,
    span, split, within, CharClass,
};
use vstd::prelude::*;

verus! {

/// A name that is not empty and holds no `(`, followed by a `(`, is scanned
/// as the name, and the text from the `(` on is left.
pub proof fn lemma_name_scans(name: Seq<char>, tail: Seq<char>)
    requires
        name.len() > 0,
        within(name, CharClass::Except('(')),
        tail.len() > 0,
        tail[0] == '(',
    ensures
        spec_syscall_name(name + tail) == Ok::<_, ParseErrorKind>((tail, name)),
{
    lemma_span_stops(name, tail, CharClass::Except('('));
}

/// Whether `args` can be written as an argument list and read back: no
/// argument holds `,` or `)`, and the list is not the single empty argument,
/// which is written like no argument at all.
pub open spec fn writable(args: Seq<Seq<char>>) -> bool {
    &&& all_within(args, CharClass::ExceptEither(',', ')'))
    &&& !(args.len() == 1 && args[0].len() == 0)
}

/// Arguments joined by `,` between `(` and `)` are scanned as those
/// arguments, each classified, and the text after the `)` is left.
pub proof fn lemma_args_scan(args: Seq<Seq<char>>, tail: Seq<char>)
    requires
        writable(args),
    ensures
        spec_syscall_args(seq!['('] + join(args, ',') + seq![')'] + tail) == Ok::<
            _,
            ParseErrorKind,
        >((tail, classify_all(args))),
{
    let inner = join(args, ',');
    let s = seq!['('] + inner + seq![')'] + tail;
    let closed = seq![')'] + tail;
    assert forall|i: int| 0 <= i < args.len() implies within(
        #[trigger] args[i],
        CharClass::Except(')'),
    ) && within(args[i], CharClass::Except(',')) by {
        assert(within(args[i], CharClass::ExceptEither(',', ')')));
    }
    lemma_join_within(args, ',', CharClass::Except(')'));
    assert(s.skip(1) == inner + closed);
    lemma_span_stops(inner, closed, CharClass::Except(')'));
    assert(s.skip(inner.len() as int + 2) == tail);
    assert(s.subrange(1, inner.len() as int + 1) == inner);
    if args.len() == 0 {
        assert(tokens(inner) == args);
    } else {
        if args.len() > 1 {
            assert(inner.len() > 0);
        }
        lemma_split_join(args, ',');
    }
}

/// A `=` with whitespace around it is scanned, and what follows the
/// whitespace is left.
pub proof fn lemma_separator_scans(before: Seq<char>, after: Seq<char>, tail: Seq<char>)
    requires
        within(before, CharClass::Space),
        within(after, CharClass::Space),
        tail.len() == 0 || !CharClass::Space.has(tail[0]),
    ensures
        spec_syscall_separator(before + seq!['='] + after + tail) == Ok::<_, ParseErrorKind>(tail),
{
    let s = before + seq!['='] + after + tail;
    let from_sign = seq!['='] + (after + tail);
    assert(s == before + from_sign);
    lemma_span_stops(before, from_sign, CharClass::Space);
    assert(s.skip(before.len() as int + 1) == after + tail);
    lemma_span_stops(after, tail, CharClass::Space);
    assert(s.skip(before.len() as int + 1 + after.len()) == tail);
}

/// The sign of a numeral: `-` for a negative one, nothing else.
pub open spec fn sign(negative: bool) -> Seq<char> {
    if negative {
        seq!['-']
    } else {
        Seq::empty()
    }
}

/// A numeral that an `i8` can hold, followed by something that is no digit,
/// is scanned as its value, and what follows it is left.
pub proof fn lemma_result_scans(negative: bool, digits: Seq<char>, tail: Seq<char>)
    requires
        digits.len() > 0,
        within(digits, CharClass::Digit),
        fits_i8(signed(decimal(digits), negative)),
        tail.len() == 0 || !CharClass::Digit.has(tail[0]),
    ensures
        spec_syscall_result(sign(negative) + digits + tail) == Ok::<_, ParseErrorKind>(
            (tail, signed(decimal(digits), negative)),
        ),
{
    let s = sign(negative) + digits + tail;
    let start: int = if negative { 1 } else { 0 };
    assert(CharClass::Digit.has(digits[0]));
    assert(s[0] == if negative { '-' } else { digits[0] });
    assert(s.skip(start) == digits + tail);
    lemma_span_stops(digits, tail, CharClass::Digit);
    assert(s.subrange(start, start + digits.len()) == digits);
    assert(s.skip(start + digits.len()) == tail);
}

/// The parts of a line of the shape `name(arg,arg,...) = numeral`.
pub struct LineParts {
    /// The name of the syscall.
    pub name: Seq<char>,
    /// The text of each argument.
    pub args: Seq<Seq<char>>,
    /// The whitespace between `)` and `=`.
    pub before: Seq<char>,
    /// The whitespace between `=` and the numeral.
    pub after: Seq<char>,
    /// Whether the numeral starts with `-`.
    pub negative: bool,
    /// The digits of the numeral.
    pub digits: Seq<char>,
}

impl LineParts {
    /// Whether the parts can be written as a line and read back: a name that
    /// is not empty and holds no `(`, arguments that can be written, nothing
    /// but whitespace around the `=`, and a numeral of at least one digit
    /// that denotes what an `i8` can hold.
    pub open spec fn well_formed(self) -> bool {
        &&& self.name.len() > 0
        &&& within(self.name, CharClass::Except('('))
        &&& writable(self.args)
        &&& within(self.before, CharClass::Space)
        &&& within(self.after, CharClass::Space)
        &&& self.digits.len() > 0
        &&& within(self.digits, CharClass::Digit)
        &&& fits_i8(self.result())
    }

    /// The number that the numeral denotes.
    pub open spec fn result(self) -> int {
        signed(decimal(self.digits), self.negative)
    }

    /// The line that the parts make.
    pub open spec fn render(self) -> Seq<char> {
        self.name + seq!['('] + join(self.args, ',') + seq![')'] + self.before + seq!['=']
            + self.after + sign(self.negative) + self.digits
    }

    /// The record that the line holds.
    pub open spec fn record(self) -> SysCallView {
        SysCallView { name: self.name, args: classify_all(self.args), result: self.result() }
    }
}

/// A rendered line with a tail is its name, followed by its argument list,
/// followed by its separator, followed by its numeral and the tail.
proof fn lemma_render_nests(parts: LineParts, tail: Seq<char>)
    ensures
        parts.render() + tail == parts.name + (seq!['('] + join(parts.args, ',') + seq![')'] + (
        parts.before + seq!['='] + parts.after + (sign(parts.negative) + parts.digits + tail))),
{
    let inner = join(parts.args, ',');
    let mark = sign(parts.negative);
    let flat = parts.name + seq!['('] + inner + seq![')'] + parts.before + seq!['=']
        + parts.after + mark + parts.digits + tail;
    let nested = parts.name + (seq!['('] + inner + seq![')'] + (parts.before + seq!['=']
        + parts.after + (mark + parts.digits + tail)));
    assert(flat =~= nested);
}

/// Every line of the shape `name(a1,a2,...,an) = r` is parsed: the record
/// has that name, those `n` arguments, each classified, and that result,
/// negative if the numeral has a `-` and is not zero. Text that follows the
/// numeral and does not go on with a digit is left over.
pub proof fn lemma_line_parses(parts: LineParts, tail: Seq<char>)
    requires
        parts.well_formed(),
        tail.len() == 0 || !CharClass::Digit.has(tail[0]),
    ensures
        spec_parse_syscall_line(parts.render() + tail) == Ok::<_, ParseErrorKind>(
            (tail, parts.record()),
        ),
        spec_parse_log_line(parts.render() + tail) == Ok::<_, ParseErrorKind>(parts.record()),
        parts.record().name == parts.name,
        parts.record().args.len() == parts.args.len(),
        parts.record().result == parts.result(),
        parts.negative && decimal(parts.digits) > 0 ==> parts.record().result < 0,
{
    let number = sign(parts.negative) + parts.digits + tail;
    let separated = parts.before + seq!['='] + parts.after + number;
    let listed = seq!['('] + join(parts.args, ',') + seq![')'] + separated;
    lemma_render_nests(parts, tail);
    assert(listed[0] == '(');
    lemma_name_scans(parts.name, listed);
    lemma_args_scan(parts.args, separated);
    assert(CharClass::Digit.has(parts.digits[0]));
    assert(number[0] == if parts.negative { '-' } else { parts.digits[0] });
    lemma_separator_scans(parts.before, parts.after, number);
    lemma_result_scans(parts.negative, parts.digits, tail);
}

/// Every line that is parsed has the shape `name(a1,a2,...,an) = r`: there
/// are well-formed parts that render to the line without what was left
/// over, and the record is theirs.
pub proof fn lemma_parsed_line_has_parts(line: Seq<char>) -> (parts: LineParts)
    requires
        spec_parse_syscall_line(line) is Ok,
    ensures
        parts.well_formed(),
        spec_parse_syscall_line(line) matches Ok((tail, call)) && {
            &&& line == parts.render() + tail
            &&& call == parts.record()
            &&& tail.len() == 0 || !CharClass::Digit.has(tail[0])
        },
{
    let (listed, name) = spec_syscall_name(line)->Ok_0;
    let (separated, _) = spec_syscall_args(listed)->Ok_0;
    let number = spec_syscall_separator(separated)->Ok_0;
    let (tail, _) = spec_syscall_result(number)->Ok_0;
    let args = lemma_args_have_parts(listed);
    let (before, after) = lemma_separator_has_parts(separated);
    let (negative, digits) = lemma_result_has_parts(number);
    let parts = LineParts { name, args, before, after, negative, digits };
    assert(line == name + listed && within(name, CharClass::Except('('))) by {
        lemma_span_covers(line, CharClass::Except('('));
        assert(line =~= name + listed);
    }
    lemma_render_nests(parts, tail);
    parts
}

/// A scanned argument list is `(`, writable arguments joined by `,`, `)`,
/// and what was left.
proof fn lemma_args_have_parts(s: Seq<char>) -> (args: Seq<Seq<char>>)
    requires
        spec_syscall_args(s) is Ok,
    ensures
        writable(args),
        spec_syscall_args(s) matches Ok((tail, found)) && {
            &&& s == seq!['('] + join(args, ',') + seq![')'] + tail
            &&& found == classify_all(args)
        },
{
    let n: int = span(s.skip(1), CharClass::Except(')')) as int;
    let inner = s.subrange(1, n + 1);
    let tail = s.skip(n + 2);
    let args = tokens(inner);
    lemma_span_covers(s.skip(1), CharClass::Except(')'));
    assert(s[n + 1] == s.skip(1)[n]);
    assert forall|k: int| 0 <= k < inner.len() implies CharClass::Except(')').has(
        #[trigger] inner[k],
    ) by {
        assert(inner[k] == s.skip(1)[k]);
    }
    if inner.len() > 0 {
        lemma_split_within(inner, ',', CharClass::Except(')'));
        lemma_join_split(inner, ',');
        assert forall|i: int| 0 <= i < args.len() implies within(
            #[trigger] args[i],
            CharClass::ExceptEither(',', ')'),
        ) by {
            assert(within(args[i], CharClass::Except(')')));
            assert(within(args[i], CharClass::Except(',')));
        }
    }
    assert(join(args, ',') == inner);
    assert(s =~= seq!['('] + inner + seq![')'] + tail);
    args
}

/// A scanned separator is whitespace, `=`, whitespace, and what was left.
proof fn lemma_separator_has_parts(s: Seq<char>) -> (gaps: (Seq<char>, Seq<char>))
    requires
        spec_syscall_separator(s) is Ok,
    ensures
        within(gaps.0, CharClass::Space),
        within(gaps.1, CharClass::Space),
        spec_syscall_separator(s) matches Ok(tail) && s == gaps.0 + seq!['='] + gaps.1 + tail,
{
    let b: int = span(s, CharClass::Space) as int;
    let a: int = span(s.skip(b + 1), CharClass::Space) as int;
    let before = s.take(b);
    let after = s.subrange(b + 1, b + 1 + a);
    let tail = s.skip(b + 1 + a);
    lemma_span_covers(s, CharClass::Space);
    lemma_span_covers(s.skip(b + 1), CharClass::Space);
    assert forall|k: int| 0 <= k < after.len() implies CharClass::Space.has(#[trigger] after[k]) by {
        assert(after[k] == s.skip(b + 1)[k]);
    }
    assert(s =~= before + seq!['='] + after + tail);
    (before, after)
}

/// A scanned result is a sign, digits that denote it, and what was left,
/// which does not go on with a digit.
proof fn lemma_result_has_parts(s: Seq<char>) -> (numeral: (bool, Seq<char>))
    requires
        spec_syscall_result(s) is Ok,
    ensures
        numeral.1.len() > 0,
        within(numeral.1, CharClass::Digit),
        fits_i8(signed(decimal(numeral.1), numeral.0)),
        spec_syscall_result(s) matches Ok((tail, value)) && {
            &&& s == sign(numeral.0) + numeral.1 + tail
            &&& value == signed(decimal(numeral.1), numeral.0)
            &&& tail.len() == 0 || !CharClass::Digit.has(tail[0])
        },
{
    let negative = s.len() > 0 && s[0] == '-';
    let start: int = if negative { 1 } else { 0 };
    let n: int = span(s.skip(start), CharClass::Digit) as int;
    let digits = s.subrange(start, start + n);
    let tail = s.skip(start + n);
    lemma_span_covers(s.skip(start), CharClass::Digit);
    assert forall|k: int| 0 <= k < digits.len() implies CharClass::Digit.has(#[trigger] digits[k]) by {
        assert(digits[k] == s.skip(start)[k]);
    }
    if tail.len() > 0 {
        assert(tail[0] == s.skip(start)[n]);
    }
    assert(s =~= sign(negative) + digits + tail);
    (negative, digits)
}

/// An identifier holds no `|` and does not start with whitespace.
proof fn lemma_identifier_chars(s: Seq<char>)
    requires
        is_identifier(s),
    ensures
        within(s, CharClass::Except('|')),
        !CharClass::Space.has(s[0]),
{
    assert forall|i: int| 0 <= i < s.len() implies CharClass::Except('|').has(#[trigger] s[i]) by {
        assert(CharClass::IdentPart.has(s[i]));
    }
}

/// A joined text starts as its first part does, if that part is not empty.
proof fn lemma_join_starts(parts: Seq<Seq<char>>, sep: char)
    requires
        parts.len() > 0,
        parts[0].len() > 0,
    ensures
        join(parts, sep).len() > 0,
        join(parts, sep)[0] == parts[0][0],
{
}

/// Two or more identifiers joined by `|` are classified as flags, and the
/// flags are those identifiers in the order in which they were written.
/// Whitespace in front makes no difference.
pub proof fn lemma_flags_classify(gap: Seq<char>, names: Seq<Seq<char>>)
    requires
        within(gap, CharClass::Space),
        names.len() >= 2,
        forall|i: int| 0 <= i < names.len() ==> is_identifier(#[trigger] names[i]),
    ensures
        classify(gap + join(names, '|')) == ArgView::Flags(names),
{
    let word = join(names, '|');
    lemma_null_word_is_one_piece();
    assert forall|i: int| 0 <= i < names.len() implies within(
        #[trigger] names[i],
        CharClass::Except('|'),
    ) by {
        lemma_identifier_chars(names[i]);
    }
    lemma_identifier_chars(names[0]);
    lemma_join_starts(names, '|');
    lemma_span_stops(gap, word, CharClass::Space);
    lemma_split_join(names, '|');
}

/// The word for a null pointer is one piece: it holds no `|`.
proof fn lemma_null_word_is_one_piece()
    ensures
        split(null_word(), '|') == seq![null_word()],
{
    assert(null_word()[0] == 'N' && null_word()[1] == 'U' && null_word()[2] == 'L'
        && null_word()[3] == 'L');
    lemma_span_is(null_word(), CharClass::Except('|'), 4);
}

/// One identifier alone is no set of flags: it is kept as it is, with the
/// whitespace in front of it, unless it is the word for a null pointer.
pub proof fn lemma_one_identifier_is_kept(gap: Seq<char>, name: Seq<char>)
    requires
        within(gap, CharClass::Space),
        is_identifier(name),
        name != null_word(),
    ensures
        classify(gap + name) == ArgView::String(gap + name),
{
    lemma_identifier_chars(name);
    lemma_span_stops(gap, name, CharClass::Space);
    lemma_span_is(name, CharClass::Except('|'), name.len() as int);
    assert(split(name, '|') == seq![name]);
}

/// The word `NULL` is classified as a null pointer, with or without
/// whitespace in front.
pub proof fn lemma_null_classifies(gap: Seq<char>)
    requires
        within(gap, CharClass::Space),
    ensures
        classify(gap + null_word()) == ArgView::Null,
{
    assert(null_word()[0] == 'N');
    lemma_span_stops(gap, null_word(), CharClass::Space);
}

/// A token that is neither the word for a null pointer nor a set of flags
/// is kept as it is, whitespace included.
pub proof fn lemma_other_tokens_are_kept(token: Seq<char>)
    requires
        token.skip(span(token, CharClass::Space) as int) != null_word(),
        !is_flag_set(token.skip(span(token, CharClass::Space) as int)),
    ensures
        classify(token) == ArgView::String(token),
{
}

/// The texts that count as a set of flags are exactly those made of two or
/// more identifiers joined by `|`.
pub proof fn lemma_flag_sets_are_joined_identifiers(s: Seq<char>)
    ensures
        is_flag_set(s) <==> exists|names: Seq<Seq<char>>|
            {
                &&& names.len() >= 2
                &&& forall|i: int| 0 <= i < names.len() ==> is_identifier(#[trigger] names[i])
                &&& s == #[trigger] join(names, '|')
            },
{
    if is_flag_set(s) {
        lemma_join_split(s, '|');
        let names = split(s, '|');
        assert(s == join(names, '|'));
    }
    if exists|names: Seq<Seq<char>>|
        {
            &&& names.len() >= 2
            &&& forall|i: int| 0 <= i < names.len() ==> is_identifier(#[trigger] names[i])
            &&& s == #[trigger] join(names, '|')
        } {
        let names = choose|names: Seq<Seq<char>>|
            {
                &&& names.len() >= 2
                &&& forall|i: int| 0 <= i < names.len() ==> is_identifier(#[trigger] names[i])
                &&& s == #[trigger] join(names, '|')
            };
        assert forall|i: int| 0 <= i < names.len() implies within(
            #[trigger] names[i],
            CharClass::Except('|'),
        ) by {
            lemma_identifier_chars(names[i]);
        }
        lemma_split_join(names, '|');
    }
}

/// Whatever a token without `,` and `)` is classified as is well formed.
pub proof fn lemma_classified_is_well_formed(token: Seq<char>)
    requires
        within(token, CharClass::ExceptEither(',', ')')),
    ensures
        classify(token).well_formed(),
{
    let word = token.skip(span(token, CharClass::Space) as int);
    lemma_join_split(word, '|');
}

/// A line without `(` fails for its missing delimiter.
pub proof fn lemma_no_opening_paren(line: Seq<char>)
    requires
        within(line, CharClass::Except('(')),
    ensures
        spec_parse_syscall_line(line) == Err::<(Seq<char>, SysCallView), _>(
            ParseErrorKind::MissingDelimiter,
        ),
        spec_parse_log_line(line) == Err::<SysCallView, _>(ParseErrorKind::MissingDelimiter),
{
    lemma_span_is(line, CharClass::Except('('), line.len() as int);
}

/// A line without `=`, whose name and argument list are in order, fails for
/// its missing separator.
pub proof fn lemma_no_equals_sign(line: Seq<char>)
    requires
        within(line, CharClass::Except('=')),
        spec_syscall_name(line) matches Ok((listed, _)) && spec_syscall_args(listed) is Ok,
    ensures
        spec_parse_log_line(line) == Err::<SysCallView, _>(ParseErrorKind::MissingSeparator),
{
    let listed = spec_syscall_name(line)->Ok_0.0;
    let separated = spec_syscall_args(listed)->Ok_0.0;
    lemma_scanners_leave_an_end(line);
    lemma_scanners_leave_an_end(listed);
    lemma_end_within(listed, line, CharClass::Except('='));
    lemma_end_within(separated, listed, CharClass::Except('='));
    lemma_span_covers(separated, CharClass::Space);
}

/// Whether `s` starts with a decimal numeral: a digit, or `-` and a digit.
pub open spec fn starts_with_numeral(s: Seq<char>) -> bool {
    ||| s.len() > 0 && CharClass::Digit.has(s[0])
    ||| s.len() > 1 && s[0] == '-' && CharClass::Digit.has(s[1])
}

/// A line whose name, argument list and separator are in order, but which
/// does not go on with a numeral, fails for its malformed result.
pub proof fn lemma_no_numeral(line: Seq<char>)
    requires
        spec_syscall_name(line) matches Ok((listed, _)) && spec_syscall_args(listed) matches Ok(
            (separated, _),
        ) && spec_syscall_separator(separated) matches Ok(number) && !starts_with_numeral(number),
    ensures
        spec_parse_log_line(line) == Err::<SysCallView, _>(ParseErrorKind::MalformedResult),
{
    let listed = spec_syscall_name(line)->Ok_0.0;
    let separated = spec_syscall_args(listed)->Ok_0.0;
    let number = spec_syscall_separator(separated)->Ok_0;
    let start: int = if number.len() > 0 && number[0] == '-' { 1 } else { 0 };
    let digits = number.skip(start);
    lemma_span_covers(digits, CharClass::Digit);
    if span(digits, CharClass::Digit) > 0 {
        assert(CharClass::Digit.has(digits[0]));
        assert(digits[0] == number[start]);
    }
}

/// A line whose name, argument list and separator are in order, but whose
/// numeral denotes more than an `i8` can hold, fails for its malformed
/// result.
pub proof fn lemma_numeral_too_large(
    line: Seq<char>,
    negative: bool,
    digits: Seq<char>,
    tail: Seq<char>,
)
    requires
        spec_syscall_name(line) matches Ok((listed, _)) && spec_syscall_args(listed) matches Ok(
            (separated, _),
        ) && spec_syscall_separator(separated) == Ok::<_, ParseErrorKind>(
            sign(negative) + digits + tail,
        ),
        digits.len() > 0,
        within(digits, CharClass::Digit),
        tail.len() == 0 || !CharClass::Digit.has(tail[0]),
        !fits_i8(signed(decimal(digits), negative)),
    ensures
        spec_parse_log_line(line) == Err::<SysCallView, _>(ParseErrorKind::MalformedResult),
{
    let s = sign(negative) + digits + tail;
    let start: int = if negative { 1 } else { 0 };
    assert(CharClass::Digit.has(digits[0]));
    assert(s[0] == if negative { '-' } else { digits[0] });
    assert(s.skip(start) == digits + tail);
    lemma_span_stops(digits, tail, CharClass::Digit);
    assert(s.subrange(start, start + digits.len()) == digits);
}

/// Parsing keeps no state: two lines of the same characters have the same
/// outcome, record for record and failure for failure.
pub proof fn lemma_same_line_same_outcome(first: &str, second: &str)
    requires
        first@ == second@,
    ensures
        spec_parse_log_line(first@) == spec_parse_log_line(second@),
        spec_parse_syscall_line(first@) == spec_parse_syscall_line(second@),
{
}

/// Every scanner leaves an end of its input.
pub proof fn lemma_scanners_leave_an_end(s: Seq<char>)
    ensures
        spec_syscall_name(s) matches Ok((rest, _)) ==> is_end_of(rest, s),
        spec_syscall_args(s) matches Ok((rest, _)) ==> is_end_of(rest, s),
        spec_syscall_separator(s) matches Ok(rest) ==> is_end_of(rest, s),
        spec_syscall_result(s) matches Ok((rest, _)) ==> is_end_of(rest, s),
{
    lemma_span_covers(s, CharClass::Except('('));
    lemma_span_covers(s.skip(1), CharClass::Except(')'));
    let before: int = span(s, CharClass::Space) as int;
    lemma_span_covers(s, CharClass::Space);
    lemma_span_covers(s.skip(before + 1), CharClass::Space);
    let start: int = if s.len() > 0 && s[0] == '-' { 1 } else { 0 };
    lemma_span_covers(s.skip(start), CharClass::Digit);
}

/// Every record that is parsed is well formed, and what is left of the line
/// is its end.
pub proof fn lemma_record_is_well_formed(line: Seq<char>)
    ensures
        spec_parse_syscall_line(line) matches Ok((rest, call)) ==> call.well_formed() && is_end_of(
            rest,
            line,
        ),
        spec_parse_log_line(line) matches Ok(call) ==> call.well_formed(),
{
    if spec_parse_syscall_line(line) is Ok {
        let (rest, call) = spec_parse_syscall_line(line)->Ok_0;
        let parts = lemma_parsed_line_has_parts(line);
        assert forall|i: int| 0 <= i < call.args.len() implies (#[trigger] call.args[i]).well_formed() by {
            assert(within(parts.args[i], CharClass::ExceptEither(',', ')')));
            lemma_classified_is_well_formed(parts.args[i]);
        }
        assert(is_end_of(rest, line)) by {
            assert((parts.render() + rest).skip(parts.render().len() as int) == rest);
        }
    }
}

} // verus!
