//! Password generation from fixed character pools: a requested number of
//! digits and special characters first, then randomly classed characters up
//! to the requested length.
use vstd::prelude::*;
use crate::rng::random_below;

verus! {

pub const LOWERS: [char; 26] = [
    'a',
    'b',
    'c',
    'd',
    'e',
    'f',
    'g',
    'h',
    'i',
    'j',
    'k',
    'l',
    'm',
    'n',
    'o',
    'p',
    'q',
    'r',
    's',
    't',
    'u',
    'v',
    'w',
    'x',
    'y',
    'z',
];

pub const UPPERS: [char; 26] = [
    'A',
    'B',
    'C',
    'D',
    'E',
    'F',
    'G',
    'H',
    'I',
    'J',
    'K',
    'L',
    'M',
    'N',
    'O',
    'P',
    'Q',
    'R',
    'S',
    'T',
    'U',
    'V',
    'W',
    'X',
    'Y',
    'Z',
];

pub const SPECIALS: [char; 32] = [
    '!',
    '@',
    '#',
    '$',
    '%',
    '^',
    '&',
    '*',
    '(',
    ')',
    '-',
    '_',
    '=',
    '+',
    '{',
    '}',
    '[',
    ']',
    '|',
    '\\',
    ':',
    ';',
    '"',
    '\'',
    '<',
    ',',
    '>',
    '.',
    '?',
    '/',
    '~',
    '`',
];

pub const NUMBERS: [char; 10] = ['1', '2', '3', '4', '5', '6', '7', '8', '9', '0'];

/// The class a generated character is drawn from.
pub enum CharType {
    Lower,
    Upper,
    Special,
    Number,
}

/// The pool of characters belonging to a class.
pub open spec fn pool_of(t: CharType) -> Seq<char> {
    match t {
        CharType::Lower => LOWERS@,
        CharType::Upper => UPPERS@,
        CharType::Special => SPECIALS@,
        CharType::Number => NUMBERS@,
    }
}

/// A character of any of the four pools.
pub open spec fn in_some_pool(c: char) -> bool {
    LOWERS@.contains(c) || UPPERS@.contains(c) || SPECIALS@.contains(c) || NUMBERS@.contains(c)
}

/// How a random draw below six is classed: letters twice as likely as the
/// other classes, digits taking the remaining share.
pub open spec fn char_type_of(n: int) -> CharType {
    if n == 0 || n == 1 {
        CharType::Lower
    } else if n == 2 || n == 3 {
        CharType::Upper
    } else if n == 4 {
        CharType::Special
    } else {
        CharType::Number
    }
}

/// Classes one draw.
pub fn sample_char_type(n: u8) -> (t: CharType)
    requires
        n < 6,
    ensures
        t == char_type_of(n as int),
{
    match n {
        0 | 1 => CharType::Lower,
        2 | 3 => CharType::Upper,
        4 => CharType::Special,
        _ => CharType::Number,
    }
}

fn random_char_type() -> (t: CharType) {
    let n = random_below(6);
    sample_char_type(n as u8)
}

/// Whether `l` characters have room for the requested minimum counts and
/// one of each requested letter case.
pub fn comp_length(l: u8, min_num: u8, min_spec: u8, up: bool, low: bool) -> (r: bool)
    requires
        min_num + min_spec + (if up {
            1int
        } else {
            0int
        }) + (if low {
            1int
        } else {
            0int
        }) <= u8::MAX,
    ensures
        r == (l as int >= min_num as int + min_spec as int + (if up {
            1int
        } else {
            0int
        }) + (if low {
            1int
        } else {
            0int
        })),
{
    let min_up: u8 = if up {
        1
    } else {
        0
    };
    let min_low: u8 = if low {
        1
    } else {
        0
    };
    l >= min_num + min_spec + min_up + min_low
}

/// Draws one character of the given class, uniformly from its pool.
pub fn random_char(t: CharType) -> (c: char)
    ensures
        pool_of(t).contains(c),
{
    match t {
        CharType::Lower => {
            let i = random_below(26);
            let c = LOWERS[i];
            proof {
                assert(LOWERS@[i as int] == c);
            }
            c
        },
        CharType::Upper => {
            let i = random_below(26);
            let c = UPPERS[i];
            proof {
                assert(UPPERS@[i as int] == c);
            }
            c
        },
        CharType::Special => {
            let i = random_below(32);
            let c = SPECIALS[i];
            proof {
                assert(SPECIALS@[i as int] == c);
            }
            c
        },
        CharType::Number => {
            let i = random_below(10);
            let c = NUMBERS[i];
            proof {
                assert(NUMBERS@[i as int] == c);
            }
            c
        },
    }
}

/// Relies on core::iter::Iterator::collect: the string holding exactly the
/// given characters, in order.
#[verifier::external_body]
fn chars_to_string(v: Vec<char>) -> (s: String)
    ensures
        s@ == v@,
{
    v.into_iter().collect()
}

/// Generates a password: the requested minimum of digits first, then the
/// requested minimum of special characters, then randomly classed
/// characters up to length `l`. The result is `l` characters long, or
/// longer when the minima alone exceed `l`.
pub fn gen_password(l: u8, min_num: u8, min_spec: u8, _up: bool, _low: bool) -> (s: String)
    ensures
        s@.len() == if l as int >= min_num as int + min_spec as int {
            l as int
        } else {
            min_num as int + min_spec as int
        },
        forall|i: int| 0 <= i < min_num as int ==> NUMBERS@.contains(#[trigger] s@[i]),
        forall|i: int|
            min_num as int <= i < min_num as int + min_spec as int ==> SPECIALS@.contains(
                #[trigger] s@[i],
            ),
        forall|i: int|
            min_num as int + min_spec as int <= i < s@.len() ==> in_some_pool(#[trigger] s@[i]),
{
    let mut pass_chars: Vec<char> = Vec::new();
    let mut c: usize = 0;
    while c < min_num as usize
        invariant
            c <= min_num,
            pass_chars@.len() == c,
            forall|i: int| 0 <= i < c ==> NUMBERS@.contains(#[trigger] pass_chars@[i]),
        decreases min_num as usize - c,
    {
        pass_chars.push(random_char(CharType::Number));
        c = c + 1;
    }
    let mut c2: usize = 0;
    while c2 < min_spec as usize
        invariant
            c2 <= min_spec,
            pass_chars@.len() == min_num as int + c2,
            forall|i: int| 0 <= i < min_num as int ==> NUMBERS@.contains(#[trigger] pass_chars@[i]),
            forall|i: int|
                min_num as int <= i < min_num as int + c2 ==> SPECIALS@.contains(
                    #[trigger] pass_chars@[i],
                ),
        decreases min_spec as usize - c2,
    {
        pass_chars.push(random_char(CharType::Special));
        c2 = c2 + 1;
    }
    while pass_chars.len() < l as usize
        invariant
            pass_chars@.len() >= min_num as int + min_spec as int,
            pass_chars@.len() <= min_num as int + min_spec as int || pass_chars@.len() <= l as int,
            forall|i: int| 0 <= i < min_num as int ==> NUMBERS@.contains(#[trigger] pass_chars@[i]),
            forall|i: int|
                min_num as int <= i < min_num as int + min_spec as int ==> SPECIALS@.contains(
                    #[trigger] pass_chars@[i],
                ),
            forall|i: int|
                min_num as int + min_spec as int <= i < pass_chars@.len() ==> in_some_pool(
                    #[trigger] pass_chars@[i],
                ),
        decreases l as int - pass_chars@.len(),
    {
        let ct = random_char_type();
        let ch = random_char(ct);
        proof {
            assert(in_some_pool(ch));
        }
        pass_chars.push(ch);
    }
    chars_to_string(pass_chars)
}

} // verus!
