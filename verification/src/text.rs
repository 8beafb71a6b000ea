//! What this library takes from the standard library's `char` and `str`
//! without proof: the Unicode classes of a character, case folding, quoting,
//! and a few plain string operations.

use vstd::prelude::*;

verus! {

// Whether `c` has the Unicode property Alphabetic.
pub uninterp spec fn alphabetic(c: char) -> bool;

// Whether `c` is in one of the Unicode general categories for numbers.
pub uninterp spec fn numeric(c: char) -> bool;

// The lower-case form of a text under Unicode's default case mapping.
pub uninterp spec fn lowercase(s: Seq<char>) -> Seq<char>;

// A text between double quotes, with its characters escaped as the
// standard library's debug formatting escapes them.
pub uninterp spec fn quoted(s: Seq<char>) -> Seq<char>;

/// Whether `c` has the Unicode property White_Space: the twenty-five
/// characters that the Unicode Character Database lists under it.
pub open spec fn white_space(c: char) -> bool {
    ||| '\u{9}' <= c <= '\u{D}'
    ||| c == ' '
    ||| c == '\u{85}'
    ||| c == '\u{A0}'
    ||| c == '\u{1680}'
    ||| '\u{2000}' <= c <= '\u{200A}'
    ||| c == '\u{2028}'
    ||| c == '\u{2029}'
    ||| c == '\u{202F}'
    ||| c == '\u{205F}'
    ||| c == '\u{3000}'
}

pub open spec fn alphanumeric(c: char) -> bool {
    alphabetic(c) || numeric(c)
}

pub open spec fn decimal_digit(c: char) -> bool {
    '0' <= c <= '9'
}

pub open spec fn hex_digit(c: char) -> bool {
    ('0' <= c <= '9') || ('a' <= c <= 'f') || ('A' <= c <= 'F')
}

/// The integers that are Unicode scalar values.
pub open spec fn is_scalar_value(v: u32) -> bool {
    v <= 0xD7FF || 0xE000 <= v <= 0x10FFFF
}

/// `char::is_whitespace`: the result is the character's White_Space
/// property, which the standard library takes from the Unicode Character
/// Database.
pub assume_specification[ char::is_whitespace ](c: char) -> (r: bool)
    ensures
        r == white_space(c),
;

/// `char::is_alphabetic`: the result is the character's Alphabetic property.
pub assume_specification[ char::is_alphabetic ](c: char) -> (r: bool)
    ensures
        r == alphabetic(c),
;

/// `char::is_numeric`: the result says whether the character's general
/// category is one of Nd, Nl, No.
pub assume_specification[ char::is_numeric ](c: char) -> (r: bool)
    ensures
        r == numeric(c),
;

/// `char::is_alphanumeric`: alphabetic or numeric.
pub assume_specification[ char::is_alphanumeric ](c: char) -> (r: bool)
    ensures
        r == alphanumeric(c),
;

/// `char::is_ascii_digit`: one of `0` to `9`.
pub assume_specification[ char::is_ascii_digit ](c: &char) -> (r: bool)
    ensures
        r == decimal_digit(*c),
;

/// `char::is_ascii_hexdigit`: one of `0` to `9`, `a` to `f`, `A` to `F`.
pub assume_specification[ char::is_ascii_hexdigit ](c: &char) -> (r: bool)
    ensures
        r == hex_digit(*c),
;

/// `char::from_u32`: the character with that scalar value, or `None` for a
/// surrogate or a number above 0x10FFFF.
pub assume_specification[ char::from_u32 ](v: u32) -> (r: Option<char>)
    ensures
        r == (if is_scalar_value(v) {
            Some(v as char)
        } else {
            None::<char>
        }),
;

/// `str::to_lowercase`: the lower-case form of the text.
#[verifier::external_body]
pub(crate) fn to_lowercase(s: &str) -> (r: String)
    ensures
        r@ == lowercase(s@),
{
    s.to_lowercase()
}

/// Debug formatting of a `str`: the text quoted and escaped.
#[verifier::external_body]
pub(crate) fn quote(s: &str) -> (r: String)
    ensures
        r@ == quoted(s@),
{
    format!("{:?}", s)
}

/// Equality of two `str`: true exactly when they hold the same characters.
#[verifier::external_body]
pub(crate) fn same_text(a: &str, b: &str) -> (r: bool)
    ensures
        r == (a@ == b@),
{
    a == b
}

/// `String::push`: appends one character.
#[verifier::external_body]
pub(crate) fn push_char(s: &mut String, c: char)
    ensures
        final(s)@ == old(s)@.push(c),
{
    s.push(c)
}

} // verus!

