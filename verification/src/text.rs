//! Character classes and the spans of text that they cover.
use vstd::prelude::*;

verus! {

/// A set of characters that a scanner can step over.
#[derive(Clone, Copy, Debug, PartialEq, Eq)]
pub enum CharClass {
    /// Space, tab, carriage return and line feed.
    Space,
    /// The decimal digits `0` to `9`.
    Digit,
    /// What an identifier may start with: an ASCII letter or `_`.
    IdentStart,
    /// What an identifier may go on with: an ASCII letter, a digit or `_`.
    IdentPart,
    /// Every character but the given one.
    Except(char),
    /// Every character but the two given ones.
    ExceptEither(char, char),
}

impl CharClass {
    /// Whether `c` belongs to the class.
    pub open spec fn has(self, c: char) -> bool {
        match self {
            CharClass::Space => c == ' ' || c == '\t' || c == '\r' || c == '\n',
            CharClass::Digit => '0' <= c <= '9',
            CharClass::IdentStart => c == '_' || 'a' <= c <= 'z' || 'A' <= c <= 'Z',
            CharClass::IdentPart => c == '_' || 'a' <= c <= 'z' || 'A' <= c <= 'Z' || '0' <= c
                <= '9',
            CharClass::Except(x) => c != x,
            CharClass::ExceptEither(x, y) => c != x && c != y,
        }
    }

    /// Tests whether `c` belongs to the class.
    pub fn contains(self, c: char) -> (found: bool)
        ensures
            found == self.has(c),
    {
        match self {
            CharClass::Space => c == ' ' || c == '\t' || c == '\r' || c == '\n',
            CharClass::Digit => '0' <= c && c <= '9',
            CharClass::IdentStart => c == '_' || ('a' <= c && c <= 'z') || ('A' <= c && c <= 'Z'),
            CharClass::IdentPart => c == '_' || ('a' <= c && c <= 'z') || ('A' <= c && c <= 'Z')
                || ('0' <= c && c <= '9'),
            CharClass::Except(x) => c != x,
            CharClass::ExceptEither(x, y) => c != x && c != y,
        }
    }
}

/// The length of the longest prefix of `s` made of characters of `class`.
pub open spec fn span(s: Seq<char>, class: CharClass) -> nat
    decreases s.len(),
{
    if s.len() > 0 && class.has(s[0]) {
        1 + span(s.drop_first(), class)
    } else {
        0
    }
}

/// A span ends inside the text, covers only characters of the class, and is
/// followed by a character outside the class or by the end of the text.
pub proof fn lemma_span_covers(s: Seq<char>, class: CharClass)
    ensures
        span(s, class) <= s.len(),
        forall|i: int| 0 <= i < span(s, class) ==> class.has(#[trigger] s[i]),
        span(s, class) < s.len() ==> !class.has(s[span(s, class) as int]),
    decreases s.len(),
{
    if s.len() > 0 && class.has(s[0]) {
        let tail = s.drop_first();
        lemma_span_covers(tail, class);
        assert forall|i: int| 0 <= i < span(s, class) implies class.has(#[trigger] s[i]) by {
            if i > 0 {
                assert(s[i] == tail[i - 1]);
            }
        }
        assert(span(s, class) < s.len() ==> s[span(s, class) as int] == tail[span(tail, class) as int]);
    }
}

/// A length that covers only characters of the class, and is followed by a
/// character outside the class or by the end of the text, is the span.
pub proof fn lemma_span_is(s: Seq<char>, class: CharClass, n: int)
    requires
        0 <= n <= s.len(),
        forall|i: int| 0 <= i < n ==> class.has(#[trigger] s[i]),
        n < s.len() ==> !class.has(s[n]),
    ensures
        span(s, class) == n,
    decreases s.len(),
{
    if n > 0 {
        let tail = s.drop_first();
        assert(class.has(s[0]));
        assert forall|i: int| 0 <= i < n - 1 implies class.has(#[trigger] tail[i]) by {
            assert(tail[i] == s[i + 1]);
        }
        lemma_span_is(tail, class, n - 1);
    }
}

/// Whether every character of `s` belongs to `class`.
pub open spec fn within(s: Seq<char>, class: CharClass) -> bool {
    forall|i: int| 0 <= i < s.len() ==> class.has(#[trigger] s[i])
}

/// A text of the class, followed by a text that does not start with a
/// character of the class, is spanned exactly.
pub proof fn lemma_span_stops(a: Seq<char>, b: Seq<char>, class: CharClass)
    requires
        within(a, class),
        b.len() == 0 || !class.has(b[0]),
    ensures
        span(a + b, class) == a.len(),
        (a + b).take(a.len() as int) == a,
        (a + b).skip(a.len() as int) == b,
{
    let s = a + b;
    assert forall|i: int| 0 <= i < a.len() implies class.has(#[trigger] s[i]) by {
        assert(s[i] == a[i]);
    }
    if b.len() > 0 {
        assert(s[a.len() as int] == b[0]);
    }
    lemma_span_is(s, class, a.len() as int);
    assert(s.take(a.len() as int) == a);
    assert(s.skip(a.len() as int) == b);
}

/// Whether `rest` is what is left of `s` when some of its first characters
/// are taken away.
pub open spec fn is_end_of(rest: Seq<char>, s: Seq<char>) -> bool {
    rest.len() <= s.len() && rest == s.skip(s.len() - rest.len())
}

/// The end of a text holds no character that the text does not hold.
pub proof fn lemma_end_within(rest: Seq<char>, s: Seq<char>, class: CharClass)
    requires
        is_end_of(rest, s),
        within(s, class),
    ensures
        within(rest, class),
{
    assert forall|i: int| 0 <= i < rest.len() implies class.has(#[trigger] rest[i]) by {
        assert(rest[i] == s[s.len() - rest.len() + i]);
    }
}

/// The pieces of `s` that lie between the occurrences of `sep`. There is
/// always at least one piece, and none of them holds `sep`.
pub open spec fn split(s: Seq<char>, sep: char) -> Seq<Seq<char>>
    decreases s.len(),
{
    let n: int = span(s, CharClass::Except(sep)) as int;
    if 0 <= n < s.len() {
        seq![s.take(n)] + split(s.skip(n + 1), sep)
    } else {
        seq![s]
    }
}

/// The `parts`, with `sep` between each two neighbours.
pub open spec fn join(parts: Seq<Seq<char>>, sep: char) -> Seq<char>
    decreases parts.len(),
{
    if parts.len() == 0 {
        Seq::empty()
    } else if parts.len() == 1 {
        parts[0]
    } else {
        parts[0] + seq![sep] + join(parts.drop_first(), sep)
    }
}

/// Whether each of the `parts` is made of characters of `class`.
pub open spec fn all_within(parts: Seq<Seq<char>>, class: CharClass) -> bool {
    forall|i: int| 0 <= i < parts.len() ==> within(#[trigger] parts[i], class)
}

/// Joining keeps out a character that neither the parts nor the separator
/// bring in.
pub proof fn lemma_join_within(parts: Seq<Seq<char>>, sep: char, class: CharClass)
    requires
        all_within(parts, class),
        class.has(sep),
    ensures
        within(join(parts, sep), class),
    decreases parts.len(),
{
    if parts.len() >= 2 {
        let rest = parts.drop_first();
        assert forall|i: int| 0 <= i < rest.len() implies within(#[trigger] rest[i], class) by {
            assert(rest[i] == parts[i + 1]);
        }
        lemma_join_within(rest, sep, class);
        assert(within(parts[0], class));
    } else if parts.len() == 1 {
        assert(within(parts[0], class));
    }
}

/// Cutting at the separator undoes joining with it, as long as no part
/// holds the separator itself.
pub proof fn lemma_split_join(parts: Seq<Seq<char>>, sep: char)
    requires
        parts.len() > 0,
        all_within(parts, CharClass::Except(sep)),
    ensures
        split(join(parts, sep), sep) == parts,
    decreases parts.len(),
{
    let first = parts[0];
    assert(within(first, CharClass::Except(sep)));
    if parts.len() == 1 {
        lemma_span_stops(first, Seq::empty(), CharClass::Except(sep));
        assert(first + Seq::<char>::empty() == first);
        assert(split(first, sep) == seq![first]);
        assert(seq![first] == parts);
    } else {
        let rest = parts.drop_first();
        assert forall|i: int| 0 <= i < rest.len() implies within(
            #[trigger] rest[i],
            CharClass::Except(sep),
        ) by {
            assert(rest[i] == parts[i + 1]);
        }
        lemma_split_join(rest, sep);
        let tail = seq![sep] + join(rest, sep);
        let text = join(parts, sep);
        assert(text == first + tail);
        lemma_span_stops(first, tail, CharClass::Except(sep));
        assert(text.skip(first.len() as int + 1) == join(rest, sep));
        assert(seq![first] + rest == parts);
    }
}

/// Joining with the separator undoes cutting at it.
pub proof fn lemma_join_split(s: Seq<char>, sep: char)
    ensures
        join(split(s, sep), sep) == s,
        split(s, sep).len() > 0,
        all_within(split(s, sep), CharClass::Except(sep)),
    decreases s.len(),
{
    let n: int = span(s, CharClass::Except(sep)) as int;
    lemma_span_covers(s, CharClass::Except(sep));
    if n < s.len() {
        let head = s.take(n);
        let tail = s.skip(n + 1);
        lemma_join_split(tail, sep);
        let parts = seq![head] + split(tail, sep);
        assert(parts.drop_first() == split(tail, sep));
        assert(parts[0] == head);
        assert(head + seq![sep] + tail == s);
        assert forall|i: int| 0 <= i < parts.len() implies within(
            #[trigger] parts[i],
            CharClass::Except(sep),
        ) by {
            if i > 0 {
                assert(parts[i] == split(tail, sep)[i - 1]);
            }
        }
    } else {
        assert(split(s, sep) == seq![s]);
    }
}

/// The pieces of a text hold no character that the text does not hold.
pub proof fn lemma_split_within(s: Seq<char>, sep: char, class: CharClass)
    requires
        within(s, class),
    ensures
        all_within(split(s, sep), class),
    decreases s.len(),
{
    let n: int = span(s, CharClass::Except(sep)) as int;
    lemma_span_covers(s, CharClass::Except(sep));
    if n < s.len() {
        let head = s.take(n);
        let tail = s.skip(n + 1);
        assert forall|i: int| 0 <= i < tail.len() implies class.has(#[trigger] tail[i]) by {
            assert(tail[i] == s[n + 1 + i]);
        }
        lemma_split_within(tail, sep, class);
        let parts = seq![head] + split(tail, sep);
        assert forall|i: int| 0 <= i < parts.len() implies within(#[trigger] parts[i], class) by {
            if i == 0 {
                assert forall|k: int| 0 <= k < head.len() implies class.has(#[trigger] head[k]) by {
                    assert(head[k] == s[k]);
                }
            } else {
                assert(parts[i] == split(tail, sep)[i - 1]);
            }
        }
    } else {
        assert(split(s, sep) == seq![s]);
    }
}

/// Steps over the characters of `class` in `chars[from..to]`, starting at
/// `from`, and returns the index at which it stopped.
pub fn scan(chars: &[char], from: usize, to: usize, class: CharClass) -> (end: usize)
    requires
        from <= to <= chars.len(),
    ensures
        end == from + span(chars@.subrange(from as int, to as int), class),
        from <= end <= to,
        forall|i: int| from <= i < end ==> class.has(#[trigger] chars@[i]),
        end < to ==> !class.has(chars@[end as int]),
{
    let mut end: usize = from;
    while end < to && class.contains(chars[end])
        invariant
            from <= end <= to <= chars.len(),
            forall|i: int| from <= i < end ==> class.has(#[trigger] chars@[i]),
        decreases to - end,
    {
        end += 1;
    }
    proof {
        let window = chars@.subrange(from as int, to as int);
        assert forall|i: int| 0 <= i < end - from implies class.has(#[trigger] window[i]) by {
            assert(window[i] == chars@[from + i]);
        }
        lemma_span_is(window, class, end - from);
    }
    end
}

/// The texts `chars[a..b]`, for each pair `(a, b)` of `pieces`.
pub open spec fn slices(chars: Seq<char>, pieces: Seq<(usize, usize)>) -> Seq<Seq<char>> {
    Seq::new(pieces.len(), |i: int| chars.subrange(pieces[i].0 as int, pieces[i].1 as int))
}

/// Cuts `chars[from..to]` at each `sep` and returns, in order, where each
/// piece starts and where it ends.
pub fn cut(chars: &[char], from: usize, to: usize, sep: char) -> (pieces: Vec<(usize, usize)>)
    requires
        from <= to <= chars.len(),
    ensures
        slices(chars@, pieces@) == split(chars@.subrange(from as int, to as int), sep),
        forall|i: int|
            0 <= i < pieces@.len() ==> from <= (#[trigger] pieces@[i]).0 <= pieces@[i].1 <= to,
{
    let ghost whole = split(chars@.subrange(from as int, to as int), sep);
    let mut pieces: Vec<(usize, usize)> = Vec::new();
    let mut start: usize = from;
    assert(slices(chars@, pieces@) + whole == whole);
    loop
        invariant_except_break
            from <= start <= to <= chars.len(),
            whole == slices(chars@, pieces@) + split(chars@.subrange(start as int, to as int), sep),
        invariant
            forall|i: int|
                0 <= i < pieces@.len() ==> from <= (#[trigger] pieces@[i]).0 <= pieces@[i].1 <= to,
        ensures
            slices(chars@, pieces@) == whole,
        decreases to - start,
    {
        let end: usize = scan(chars, start, to, CharClass::Except(sep));
        let ghost before = slices(chars@, pieces@);
        let ghost rest = chars@.subrange(start as int, to as int);
        pieces.push((start, end));
        assert(slices(chars@, pieces@) == before.push(chars@.subrange(start as int, end as int)));
        if end == to {
            assert(rest.take(end - start) == rest);
            assert(before + seq![rest] == before.push(rest));
            break ;
        }
        proof {
            let piece = chars@.subrange(start as int, end as int);
            let tail = chars@.subrange(end + 1, to as int);
            assert(rest.take(end - start) == piece);
            assert(rest.skip(end - start + 1) == tail);
            assert(before + (seq![piece] + split(tail, sep)) == before.push(piece) + split(
                tail,
                sep,
            ));
        }
        start = end + 1;
    }
    pieces
}

/// The characters of `s`, in order.
pub fn to_chars(s: &str) -> (chars: Vec<char>)
    ensures
        chars@ == s@,
{
    broadcast use vstd::string::axiom_spec_iter;

    let mut chars: Vec<char> = Vec::new();
    let source = s.chars();
    for c in it: source
        invariant
            it.seq() == s@,
            chars@ == s@.take(it.index()),
    {
        chars.push(c);
    }
    chars
}

} // verus!
