//! Numbers as decimal text.

use vstd::prelude::*;

verus! {

/// The character of a digit.
pub open spec fn digit_char(digit: nat) -> char {
    (48 + digit) as char
}

/// A number in decimal digits, without leading zeros.
pub open spec fn decimal(number: nat) -> Seq<char>
    decreases number,
{
    if number < 10 {
        seq![digit_char(number)]
    } else {
        decimal(number / 10).push(digit_char(number % 10))
    }
}

fn digit_of(digit: u8) -> (result: char)
    requires
        digit < 10,
    ensures
        result == digit_char(digit as nat),
{
    (48 + digit) as char
}

/// Appends a number in decimal digits, without leading zeros.
pub fn push_number(out: &mut String, number: u64)
    ensures
        final(out)@ == old(out)@ + decimal(number as nat),
    decreases number,
{
    if number >= 10 {
        push_number(out, number / 10);
    }
    out.push(digit_of((number % 10) as u8));
    assert(out@ =~= old(out)@ + decimal(number as nat));
}

} // verus!
