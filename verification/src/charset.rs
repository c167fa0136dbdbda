//! ASCII character classes and the table of spoken digit names.

use vstd::prelude::*;

verus! {

/// An ASCII decimal digit, `0` to `9`.
pub open spec fn is_digit(c: char) -> bool {
    '0' <= c && c <= '9'
}

/// An ASCII capital letter.
pub open spec fn is_upper(c: char) -> bool {
    'A' <= c && c <= 'Z'
}

/// An ASCII small letter.
pub open spec fn is_lower(c: char) -> bool {
    'a' <= c && c <= 'z'
}

/// An ASCII letter of either case.
pub open spec fn is_letter(c: char) -> bool {
    is_upper(c) || is_lower(c)
}

/// Everything that is neither an ASCII letter nor an ASCII digit separates words.
pub open spec fn is_separator(c: char) -> bool {
    !is_letter(c) && !is_digit(c)
}

/// The value of a digit character.
pub open spec fn digit_value(c: char) -> int {
    c as int - '0' as int
}

/// The English name of a digit value; empty outside `0..=9`.
pub open spec fn digit_name(d: int) -> Seq<char> {
    if d == 0 {
        seq!['z', 'e', 'r', 'o']
    } else if d == 1 {
        seq!['o', 'n', 'e']
    } else if d == 2 {
        seq!['t', 'w', 'o']
    } else if d == 3 {
        seq!['t', 'h', 'r', 'e', 'e']
    } else if d == 4 {
        seq!['f', 'o', 'u', 'r']
    } else if d == 5 {
        seq!['f', 'i', 'v', 'e']
    } else if d == 6 {
        seq!['s', 'i', 'x']
    } else if d == 7 {
        seq!['s', 'e', 'v', 'e', 'n']
    } else if d == 8 {
        seq!['e', 'i', 'g', 'h', 't']
    } else if d == 9 {
        seq!['n', 'i', 'n', 'e']
    } else {
        Seq::empty()
    }
}

/// The name of every digit is written in small letters.
pub proof fn lemma_digit_name_lower(d: int)
    requires
        0 <= d <= 9,
    ensures
        digit_name(d).len() > 0,
        forall|j: int| 0 <= j < digit_name(d).len() ==> is_lower(#[trigger] digit_name(d)[j]),
{
}

/// Whether `c` is an ASCII decimal digit.
pub fn char_is_digit(c: char) -> (b: bool)
    ensures
        b == is_digit(c),
{
    '0' <= c && c <= '9'
}

/// Whether `c` is an ASCII capital letter.
pub fn char_is_upper(c: char) -> (b: bool)
    ensures
        b == is_upper(c),
{
    'A' <= c && c <= 'Z'
}

/// Whether `c` is an ASCII letter.
pub fn char_is_letter(c: char) -> (b: bool)
    ensures
        b == is_letter(c),
{
    ('A' <= c && c <= 'Z') || ('a' <= c && c <= 'z')
}

/// The English name of the digit `c`.
pub fn spoken_number(c: char) -> (name: &'static str)
    requires
        is_digit(c),
    ensures
        name@ == digit_name(digit_value(c)),
{
    let d: u32 = c as u32 - '0' as u32;
    proof {
        reveal_strlit("zero");
        reveal_strlit("one");
        reveal_strlit("two");
        reveal_strlit("three");
        reveal_strlit("four");
        reveal_strlit("five");
        reveal_strlit("six");
        reveal_strlit("seven");
        reveal_strlit("eight");
        reveal_strlit("nine");
    }
    if d == 0 {
        "zero"
    } else if d == 1 {
        "one"
    } else if d == 2 {
        "two"
    } else if d == 3 {
        "three"
    } else if d == 4 {
        "four"
    } else if d == 5 {
        "five"
    } else if d == 6 {
        "six"
    } else if d == 7 {
        "seven"
    } else if d == 8 {
        "eight"
    } else {
        "nine"
    }
}

} // verus!
