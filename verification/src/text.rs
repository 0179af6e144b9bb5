//! Writing numbers as text.

use vstd::prelude::*;

verus! {

/// `String::push` of the standard library. Taken on trust, not proved: it
/// appends the character to the end of the string and leaves the rest as it
/// was.
pub assume_specification[ String::push ](text: &mut String, c: char)
    ensures
        final(text)@ == old(text)@.push(c),
;

/// The sixteen digits, capitals for ten to fifteen.
pub open spec fn digits() -> Seq<char> {
    seq!['0', '1', '2', '3', '4', '5', '6', '7', '8', '9', 'A', 'B', 'C', 'D', 'E', 'F']
}

/// A natural number in decimal, without leading zeros.
pub open spec fn decimal(n: nat) -> Seq<char>
    decreases n,
{
    if n < 10 {
        seq![digits()[n as int]]
    } else {
        decimal(n / 10).push(digits()[(n % 10) as int])
    }
}

/// An integer in decimal, with a minus sign in front if it is negative.
pub open spec fn signed_decimal(n: int) -> Seq<char> {
    if n < 0 {
        seq!['-'] + decimal((-n) as nat)
    } else {
        decimal(n as nat)
    }
}

/// A byte as `0x` and two capital hexadecimal digits.
pub open spec fn hex_byte(byte: u8) -> Seq<char> {
    seq!['0', 'x', digits()[byte as int / 16], digits()[byte as int % 16]]
}

/// The digit for a value below sixteen.
pub fn digit_char(value: u8) -> (c: char)
    requires
        value < 16,
    ensures
        c == digits()[value as int],
{
    match value {
        0 => '0',
        1 => '1',
        2 => '2',
        3 => '3',
        4 => '4',
        5 => '5',
        6 => '6',
        7 => '7',
        8 => '8',
        9 => '9',
        10 => 'A',
        11 => 'B',
        12 => 'C',
        13 => 'D',
        14 => 'E',
        _ => 'F',
    }
}

/// Appends `value` in decimal to `text`.
pub fn push_decimal(text: &mut String, value: u64)
    ensures
        final(text)@ == old(text)@ + decimal(value as nat),
    decreases value,
{
    if value >= 10 {
        push_decimal(text, value / 10);
    }
    text.push(digit_char((value % 10) as u8));
}

/// Appends `value` in decimal to `text`, with its sign if it is negative.
pub fn push_signed_decimal(text: &mut String, value: i64)
    ensures
        final(text)@ == old(text)@ + signed_decimal(value as int),
{
    if value < 0 {
        text.push('-');
        let magnitude: u64 = if value == i64::MIN {
            9223372036854775808u64
        } else {
            (-value) as u64
        };
        push_decimal(text, magnitude);
    } else {
        push_decimal(text, value as u64);
    }
}

/// Appends `byte` as `0x` and two capital hexadecimal digits to `text`.
pub fn push_hex_byte(text: &mut String, byte: u8)
    ensures
        final(text)@ == old(text)@ + hex_byte(byte),
{
    text.push('0');
    text.push('x');
    text.push(digit_char(byte / 16));
    text.push(digit_char(byte % 16));
}

} // verus!
