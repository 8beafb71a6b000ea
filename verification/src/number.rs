//! Numbers as text: reading the digits of a literal, and writing a number
//! out in decimal.

use crate::text::push_char;
use vstd::prelude::*;
use vstd::std_specs::iter::IteratorSpec;

verus! {

/// Why a text is no number.
#[derive(Debug, Clone, Copy, PartialEq, Eq, Structural)]
pub enum NumberError {
    /// There is no character at all.
    Empty,
    /// A character is no digit of the base, or a sign stands alone.
    InvalidDigit,
    /// The number is above the largest 32-bit signed integer.
    TooLarge,
    /// The number is below the smallest 32-bit signed integer.
    TooSmall,
}

/// The value of a digit in a base up to 36; letters count from ten, in
/// either case.
pub open spec fn digit_value(c: char, radix: int) -> Option<int> {
    let v: int = if '0' <= c <= '9' {
        c as int - '0' as int
    } else if 'a' <= c <= 'z' {
        c as int - 'a' as int + 10
    } else if 'A' <= c <= 'Z' {
        c as int - 'A' as int + 10
    } else {
        36
    };
    if v < radix {
        Some(v)
    } else {
        None
    }
}

/// Reads the digits from `i` on, most significant first, onto the value
/// `acc` of those before them; a negative number grows downwards. The first
/// character that is no digit, or the first digit that takes the value out
/// of the 32-bit range, ends the reading with its error.
pub open spec fn read_digits(s: Seq<char>, i: int, acc: int, radix: int, negative: bool) -> Result<
    int,
    NumberError,
>
    decreases s.len() - i,
{
    if 0 <= i < s.len() {
        match digit_value(s[i], radix) {
            None => Err(NumberError::InvalidDigit),
            Some(d) => {
                let next = if negative {
                    acc * radix - d
                } else {
                    acc * radix + d
                };
                if next > i32::MAX {
                    Err(NumberError::TooLarge)
                } else if next < i32::MIN {
                    Err(NumberError::TooSmall)
                } else {
                    read_digits(s, i + 1, next, radix, negative)
                }
            },
        }
    } else {
        Ok(acc)
    }
}

/// The 32-bit signed integer that a text denotes in the given base: an
/// optional sign, then digits and nothing else.
pub open spec fn parse_number(s: Seq<char>, radix: int) -> Result<int, NumberError> {
    if s.len() == 0 {
        Err(NumberError::Empty)
    } else if s[0] == '-' || s[0] == '+' {
        if s.len() == 1 {
            Err(NumberError::InvalidDigit)
        } else {
            read_digits(s, 1, 0, radix, s[0] == '-')
        }
    } else {
        read_digits(s, 0, 0, radix, false)
    }
}

/// What to say of a text that is no number.
pub open spec fn number_error_text(e: NumberError) -> Seq<char> {
    match e {
        NumberError::Empty => "cannot parse integer from empty string"@,
        NumberError::InvalidDigit => "invalid digit found in string"@,
        NumberError::TooLarge => "number too large to fit in target type"@,
        NumberError::TooSmall => "number too small to fit in target type"@,
    }
}

impl NumberError {
    pub fn message(&self) -> (r: String)
        ensures
            r@ == number_error_text(*self),
    {
        match self {
            NumberError::Empty => String::from_str("cannot parse integer from empty string"),
            NumberError::InvalidDigit => String::from_str("invalid digit found in string"),
            NumberError::TooLarge => String::from_str("number too large to fit in target type"),
            NumberError::TooSmall => String::from_str("number too small to fit in target type"),
        }
    }
}

fn digit_of(c: char, radix: u32) -> (r: Option<u32>)
    requires
        2 <= radix <= 36,
    ensures
        match r {
            Some(d) => digit_value(c, radix as int) == Some(d as int) && d < radix,
            None => digit_value(c, radix as int) is None,
        },
{
    let code = c as u32;
    let v: u32 = if '0' <= c && c <= '9' {
        code - 48
    } else if 'a' <= c && c <= 'z' {
        code - 97 + 10
    } else if 'A' <= c && c <= 'Z' {
        code - 65 + 10
    } else {
        36
    };
    if v < radix {
        Some(v)
    } else {
        None
    }
}

/// Reads a text as a 32-bit signed integer in the given base.
pub fn parse_i32(text: &str, radix: u32) -> (r: Result<i32, NumberError>)
    requires
        2 <= radix <= 36,
    ensures
        match r {
            Ok(v) => parse_number(text@, radix as int) == Ok::<int, NumberError>(v as int),
            Err(e) => parse_number(text@, radix as int) == Err::<int, NumberError>(e),
        },
{
    let mut it = text.chars();
    let first = match it.next() {
        None => {
            return Err(NumberError::Empty);
        },
        Some(c) => c,
    };
    let negative = first == '-';
    let mut acc: i64 = 0;
    let ghost mut i: int = 1;
    if first == '-' || first == '+' {
        if text.unicode_len() == 1 {
            return Err(NumberError::InvalidDigit);
        }
    } else {
        match digit_of(first, radix) {
            None => {
                return Err(NumberError::InvalidDigit);
            },
            Some(d) => {
                acc = d as i64;
            },
        }
    }
    proof {
        assert(first == text@[0]);
        if !(first == '-' || first == '+') {
            assert(0 * (radix as int) == 0);
        }
    }
    loop
        invariant
            2 <= radix <= 36,
            1 <= i <= text@.len(),
            it.remaining() == text@.skip(i),
            i32::MIN <= acc <= i32::MAX,
            parse_number(text@, radix as int) == read_digits(
                text@,
                i,
                acc as int,
                radix as int,
                negative,
            ),
        decreases text@.len() - i,
    {
        let c = match it.next() {
            None => {
                return Ok(acc as i32);
            },
            Some(c) => c,
        };
        assert(c == text@[i]);
        let d = match digit_of(c, radix) {
            None => {
                return Err(NumberError::InvalidDigit);
            },
            Some(d) => d,
        };
        assert(acc * radix <= i32::MAX * 36 && acc * radix >= i32::MIN * 36) by (nonlinear_arith)
            requires
                i32::MIN <= acc <= i32::MAX,
                2 <= radix <= 36,
        ;
        let next: i64 = if negative {
            acc * (radix as i64) - (d as i64)
        } else {
            acc * (radix as i64) + (d as i64)
        };
        if next > 2147483647 {
            return Err(NumberError::TooLarge);
        }
        if next < -2147483648 {
            return Err(NumberError::TooSmall);
        }
        acc = next;
        proof {
            i = i + 1;
        }
    }
}

/// The character of a decimal digit.
pub open spec fn digit_char(d: int) -> char {
    (d + 48) as char
}

/// A natural number in decimal, without leading zeros.
pub open spec fn decimal_digits(n: nat) -> Seq<char>
    decreases n,
{
    if n < 10 {
        seq![digit_char(n as int)]
    } else {
        decimal_digits(n / 10).push(digit_char((n % 10) as int))
    }
}

/// An integer in decimal, with a minus sign where it is negative.
pub open spec fn decimal(v: int) -> Seq<char> {
    if v < 0 {
        seq!['-'] + decimal_digits((-v) as nat)
    } else {
        decimal_digits(v as nat)
    }
}

/// Appends a natural number in decimal.
pub fn push_decimal(s: &mut String, n: u32)
    ensures
        final(s)@ == old(s)@ + decimal_digits(n as nat),
    decreases n,
{
    if n >= 10 {
        push_decimal(s, n / 10);
    }
    let d = (n % 10) as u8;
    push_char(s, (d + 48) as char);
    assert(s@ =~= old(s)@ + decimal_digits(n as nat));
}

/// Appends an integer in decimal.
pub fn push_integer(s: &mut String, v: i32)
    ensures
        final(s)@ == old(s)@ + decimal(v as int),
{
    if v < 0 {
        push_char(s, '-');
        let magnitude: u32 = (-(v as i64)) as u32;
        push_decimal(s, magnitude);
        assert(s@ =~= old(s)@ + decimal(v as int));
    } else {
        push_decimal(s, v as u32);
    }
}

} // verus!
