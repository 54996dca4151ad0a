//! Numbers written out as text.

use vstd::prelude::*;
use crate::text::chars_of;

verus! {

/// Why a text is not a number.
#[derive(Debug, Clone, Copy, PartialEq, Eq, Structural)]
pub enum NumberError {
    /// There is nothing to read.
    Empty,
    /// A character is not a digit.
    InvalidDigit,
    /// The number is too large.
    TooLarge,
}

impl NumberError {
    /// What the error says in words.
    pub open spec fn text(self) -> Seq<char> {
        match self {
            NumberError::Empty => "cannot parse integer from empty string"@,
            NumberError::InvalidDigit => "invalid digit found in string"@,
            NumberError::TooLarge => "number too large to fit in target type"@,
        }
    }

    /// What the error says in words.
    pub fn message(&self) -> (s: String)
        ensures
            s@ == self.text(),
    {
        match self {
            NumberError::Empty => "cannot parse integer from empty string".to_owned(),
            NumberError::InvalidDigit => "invalid digit found in string".to_owned(),
            NumberError::TooLarge => "number too large to fit in target type".to_owned(),
        }
    }
}

/// The value of a digit, in a radix up to 16.
pub open spec fn digit_value(c: char, radix: int) -> Option<int> {
    let v = if '0' <= c && c <= '9' {
        c as int - '0' as int
    } else if 'a' <= c && c <= 'f' {
        c as int - 'a' as int + 10
    } else if 'A' <= c && c <= 'F' {
        c as int - 'A' as int + 10
    } else {
        16
    };
    if v < radix {
        Some(v)
    } else {
        None
    }
}

/// The number that `start` followed by the digits `s` is. The first character that is no
/// digit, or that makes the number larger than `max`, decides on the error.
pub open spec fn digits_from(s: Seq<char>, radix: int, max: int, start: int) -> Result<
    int,
    NumberError,
>
    decreases s.len(),
{
    if s.len() == 0 {
        Ok(start)
    } else {
        match digit_value(s[0], radix) {
            None => Err(NumberError::InvalidDigit),
            Some(d) => if start * radix + d > max {
                Err(NumberError::TooLarge)
            } else {
                digits_from(s.skip(1), radix, max, start * radix + d)
            },
        }
    }
}

/// The number that a text stands for: digits, with a plus sign in front or not.
pub open spec fn number_of(s: Seq<char>, radix: int, max: int) -> Result<int, NumberError> {
    if s.len() == 0 {
        Err(NumberError::Empty)
    } else if s[0] == '+' {
        if s.len() == 1 {
            Err(NumberError::InvalidDigit)
        } else {
            digits_from(s.skip(1), radix, max, 0)
        }
    } else {
        digits_from(s, radix, max, 0)
    }
}

fn value_of_digit(c: char, radix: u64) -> (v: Option<u64>)
    requires
        radix == 10 || radix == 16,
    ensures
        match (v, digit_value(c, radix as int)) {
            (Some(a), Some(b)) => a == b && a < radix,
            (None, None) => true,
            _ => false,
        },
{
    let v: u64 = if '0' <= c && c <= '9' {
        c as u64 - '0' as u64
    } else if 'a' <= c && c <= 'f' {
        c as u64 - 'a' as u64 + 10
    } else if 'A' <= c && c <= 'F' {
        c as u64 - 'A' as u64 + 10
    } else {
        16
    };
    if v < radix {
        Some(v)
    } else {
        None
    }
}

/// Reads a number from `s` on, in radix 10 or 16 and not above `max`.
pub fn parse_number(s: &Vec<char>, from: usize, radix: u64, max: u64) -> (r: Result<u64, NumberError>)
    requires
        radix == 10 || radix == 16,
        from <= s.len(),
    ensures
        match (r, number_of(s@.skip(from as int), radix as int, max as int)) {
            (Ok(a), Ok(b)) => a == b,
            (Err(e), Err(x)) => e == x,
            _ => false,
        },
{
    if from == s.len() {
        return Err(NumberError::Empty);
    }
    let ghost whole = s@.skip(from as int);
    assert(whole[0] == s@[from as int]);
    let mut i: usize = from;
    if s[from] == '+' {
        if from + 1 == s.len() {
            return Err(NumberError::InvalidDigit);
        }
        i = from + 1;
        assert(whole.skip(1) =~= s@.skip(i as int));
    }
    let ghost want = number_of(whole, radix as int, max as int);
    let mut n: u64 = 0;
    while i < s.len()
        invariant
            i <= s.len(),
            radix == 10 || radix == 16,
            n <= max,
            want == number_of(s@.skip(from as int), radix as int, max as int),
            digits_from(s@.skip(i as int), radix as int, max as int, n as int) == want,
        decreases s.len() - i,
    {
        let ghost rest = s@.skip(i as int);
        assert(rest[0] == s@[i as int]);
        assert(rest.skip(1) =~= s@.skip(i + 1));
        match value_of_digit(s[i], radix) {
            None => return Err(NumberError::InvalidDigit),
            Some(d) => {
                let wide: u128 = n as u128 * radix as u128 + d as u128;
                if wide > max as u128 {
                    return Err(NumberError::TooLarge);
                }
                n = wide as u64;
            },
        }
        i = i + 1;
    }
    assert(s@.skip(i as int).len() == 0);
    Ok(n)
}

/// The number that a text on the command line stands for: hexadecimal behind `0x` or `0X`,
/// decimal otherwise.
pub open spec fn hex_or_dec(s: Seq<char>) -> Result<int, NumberError> {
    if s.len() >= 2 && s[0] == '0' && (s[1] == 'x' || s[1] == 'X') {
        number_of(s.skip(2), 16, u64::MAX as int)
    } else {
        number_of(s, 10, u64::MAX as int)
    }
}

/// Reads a number: hexadecimal behind `0x` or `0X`, decimal otherwise. An error is given in
/// words.
pub fn parse_hex_or_dec(s: &str) -> (r: Result<u64, String>)
    ensures
        match (r, hex_or_dec(s@)) {
            (Ok(a), Ok(b)) => a == b,
            (Err(words), Err(x)) => words@ == x.text(),
            _ => false,
        },
{
    let chars = chars_of(s);
    let parsed = if chars.len() >= 2 && chars[0] == '0' && (chars[1] == 'x' || chars[1] == 'X') {
        parse_number(&chars, 2, 16, u64::MAX)
    } else {
        assert(chars@.skip(0) =~= chars@);
        parse_number(&chars, 0, 10, u64::MAX)
    };
    match parsed {
        Ok(n) => Ok(n),
        Err(e) => Err(e.message()),
    }
}

} // verus!
