//! Digits as characters: how a puzzle is read from text and written back.

use vstd::prelude::*;

verus! {

/// Why a piece of input was turned down.
#[derive(Debug, Clone, Copy, PartialEq, Eq, Structural)]
pub enum InvalidInput {
    /// The text does not have one character per cell.
    WrongLength,
    /// A character is not a decimal digit, or a number is not a digit.
    NotADigit,
}

/// The characters `'0'` to `'9'`.
pub open spec fn is_digit_char(c: char) -> bool {
    '0' <= c <= '9'
}

/// The digit that a digit character stands for.
pub open spec fn digit_value(c: char) -> u8 {
    (c as u32 - '0' as u32) as u8
}

/// The character that stands for a digit.
pub open spec fn digit_char(d: u8) -> char {
    if d == 0 {
        '0'
    } else if d == 1 {
        '1'
    } else if d == 2 {
        '2'
    } else if d == 3 {
        '3'
    } else if d == 4 {
        '4'
    } else if d == 5 {
        '5'
    } else if d == 6 {
        '6'
    } else if d == 7 {
        '7'
    } else if d == 8 {
        '8'
    } else {
        '9'
    }
}

/// A number in decimal, without leading zeros.
pub open spec fn decimal(v: u8) -> Seq<char> {
    if v < 10 {
        seq![digit_char(v)]
    } else if v < 100 {
        seq![digit_char(v / 10), digit_char(v % 10)]
    } else {
        seq![digit_char(v / 100), digit_char((v / 10) % 10), digit_char(v % 10)]
    }
}

/// A digit and its character stand for each other.
pub proof fn lemma_digit_char_value(c: char)
    requires
        is_digit_char(c),
    ensures
        digit_value(c) <= 9,
        digit_char(digit_value(c)) == c,
{
}

/// Reads one digit character; anything else is `None`.
pub fn parse_digit(c: char) -> (digit: Option<u8>)
    ensures
        is_digit_char(c) ==> digit == Some(digit_value(c)),
        !is_digit_char(c) ==> digit.is_none(),
{
    if '0' <= c && c <= '9' {
        Some((c as u32 - '0' as u32) as u8)
    } else {
        None
    }
}

/// The one-character text of a digit.
pub fn digit_text(d: u8) -> (text: &'static str)
    requires
        d <= 9,
    ensures
        text@ == seq![digit_char(d)],
{
    proof {
        reveal_strlit("0");
        reveal_strlit("1");
        reveal_strlit("2");
        reveal_strlit("3");
        reveal_strlit("4");
        reveal_strlit("5");
        reveal_strlit("6");
        reveal_strlit("7");
        reveal_strlit("8");
        reveal_strlit("9");
    }
    let text = if d == 0 {
        "0"
    } else if d == 1 {
        "1"
    } else if d == 2 {
        "2"
    } else if d == 3 {
        "3"
    } else if d == 4 {
        "4"
    } else if d == 5 {
        "5"
    } else if d == 6 {
        "6"
    } else if d == 7 {
        "7"
    } else if d == 8 {
        "8"
    } else {
        "9"
    };
    assert(text@ =~= seq![digit_char(d)]);
    text
}

/// Appends a number in decimal to a text.
pub fn push_decimal(text: &mut String, v: u8)
    ensures
        final(text)@ == old(text)@ + decimal(v),
{
    if v >= 100 {
        text.append(digit_text(v / 100));
        text.append(digit_text((v / 10) % 10));
        text.append(digit_text(v % 10));
    } else if v >= 10 {
        text.append(digit_text(v / 10));
        text.append(digit_text(v % 10));
    } else {
        text.append(digit_text(v));
    }
    assert(text@ =~= old(text)@ + decimal(v));
}

} // verus!
