//! The classic counting game: multiples of three and five are replaced by
//! words, everything else is shown in decimal.
use vstd::prelude::*;
use vstd::string::StringExecFns;
use crate::digits::dec_digits;
use crate::digits::decimal_string;

verus! {

/// What the counting game says for `n`: both words for a multiple of
/// fifteen, one word for a multiple of five or of three alone, and the
/// decimal rendering otherwise.
pub open spec fn fizz_line_spec(n: int) -> Seq<char> {
    if n % 5 == 0 && n % 3 == 0 {
        "FizzBuzz"@
    } else if n % 5 == 0 {
        "Buzz"@
    } else if n % 3 == 0 {
        "Fizz"@
    } else {
        dec_digits(n)
    }
}

/// The line printed for `n`.
pub fn fizzbuzz_line(n: u16) -> (s: String)
    ensures
        s@ == fizz_line_spec(n as int),
{
    if n % 5 == 0 && n % 3 == 0 {
        String::from_str("FizzBuzz")
    } else if n % 5 == 0 {
        String::from_str("Buzz")
    } else if n % 3 == 0 {
        String::from_str("Fizz")
    } else {
        decimal_string(n as u32)
    }
}

} // verus!
