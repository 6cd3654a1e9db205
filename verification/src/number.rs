//! Decimal numerals and the integers that they denote.
use crate::text::{within, CharClass};
use vstd::prelude::*;

verus! {

/// The value of the decimal digit `c`.
pub open spec fn digit_value(c: char) -> nat {
    (c as int - '0' as int) as nat
}

/// The number that the decimal numeral `digits` denotes; an empty numeral
/// denotes zero.
pub open spec fn decimal(digits: Seq<char>) -> nat
    decreases digits.len(),
{
    if digits.len() == 0 {
        0
    } else {
        10 * decimal(digits.drop_last()) + digit_value(digits.last())
    }
}

/// The number `magnitude`, negated if `negative`.
pub open spec fn signed(magnitude: nat, negative: bool) -> int {
    if negative {
        -(magnitude as int)
    } else {
        magnitude as int
    }
}

/// Whether `value` can be held in an `i8`.
pub open spec fn fits_i8(value: int) -> bool {
    i8::MIN <= value <= i8::MAX
}

/// What the text `numeral`, negated if `negative`, is as an `i8`: its
/// value, if it is made of digits, at least one, and the value fits.
pub open spec fn numeral_i8(numeral: Seq<char>, negative: bool) -> Option<i8> {
    let value: int = signed(decimal(numeral), negative);
    if numeral.len() > 0 && within(numeral, CharClass::Digit) && fits_i8(value) {
        Some(value as i8)
    } else {
        None
    }
}

/// A numeral denotes at least as much as each of its prefixes.
pub proof fn lemma_decimal_prefix(digits: Seq<char>, n: int)
    requires
        0 <= n <= digits.len(),
    ensures
        decimal(digits.take(n)) <= decimal(digits),
    decreases digits.len() - n,
{
    if n == digits.len() {
        assert(digits.take(n) == digits);
    } else {
        assert(digits.take(n + 1).drop_last() == digits.take(n));
        lemma_decimal_prefix(digits, n + 1);
    }
}

/// Reads the numeral `chars[from..to]`, negated if `negative`, as an `i8`.
/// There is no answer if the text is empty, holds anything but digits, or
/// denotes a number that does not fit.
pub fn read_i8(chars: &[char], from: usize, to: usize, negative: bool) -> (value: Option<i8>)
    requires
        from <= to <= chars.len(),
    ensures
        value == numeral_i8(chars@.subrange(from as int, to as int), negative),
{
    let ghost numeral = chars@.subrange(from as int, to as int);
    if from == to {
        return None;
    }
    let mut magnitude: u32 = 0;
    let mut at: usize = from;
    while at < to
        invariant
            from <= at <= to <= chars.len(),
            numeral == chars@.subrange(from as int, to as int),
            within(numeral.take(at - from), CharClass::Digit),
            magnitude == decimal(numeral.take(at - from)),
            magnitude <= 128,
        decreases to - at,
    {
        let c = chars[at];
        assert(numeral[at - from] == c);
        if !CharClass::Digit.contains(c) {
            return None;
        }
        proof {
            let longer = numeral.take(at - from + 1);
            assert(longer.drop_last() == numeral.take(at - from));
            assert(longer.last() == c);
            assert forall|i: int| 0 <= i < longer.len() implies CharClass::Digit.has(
                #[trigger] longer[i],
            ) by {
                if i < at - from {
                    assert(longer[i] == numeral.take(at - from)[i]);
                }
            }
        }
        let digit: u32 = c as u32 - '0' as u32;
        magnitude = 10 * magnitude + digit;
        at += 1;
        if magnitude > 128 {
            proof {
                lemma_decimal_prefix(numeral, at - from);
            }
            return None;
        }
    }
    assert(numeral.take(at - from) == numeral);
    if negative {
        let value: i32 = -(magnitude as i32);
        Some(value as i8)
    } else if magnitude <= 127 {
        Some(magnitude as i8)
    } else {
        None
    }
}

} // verus!
