//! Byte classes used by the lexer. The lexer looks at one byte at a time and
//! classifies it as the character whose code point is that byte value.

use vstd::prelude::*;

verus! {

/// The byte `(`.
pub const OPEN_PAREN: u8 = 0x28;

/// The byte `)`.
pub const CLOSE_PAREN: u8 = 0x29;

/// The byte `[`.
pub const OPEN_BRACKET: u8 = 0x5B;

/// The byte `]`.
pub const CLOSE_BRACKET: u8 = 0x5D;

/// The byte `{`.
pub const OPEN_CURLY: u8 = 0x7B;

/// The byte `}`.
pub const CLOSE_CURLY: u8 = 0x7D;

/// The byte `+`.
pub const PLUS: u8 = 0x2B;

/// The byte `-`.
pub const MINUS: u8 = 0x2D;

/// The byte `*`.
pub const STAR: u8 = 0x2A;

/// The byte `/`.
pub const SLASH: u8 = 0x2F;

/// The byte `,`.
pub const COMMA: u8 = 0x2C;

/// The byte `:`.
pub const COLON: u8 = 0x3A;

/// The byte `.`.
pub const DOT: u8 = 0x2E;

/// The byte `=`.
pub const EQUALS: u8 = 0x3D;

/// The byte `!`.
pub const BANG: u8 = 0x21;

/// The byte `<`.
pub const LESS: u8 = 0x3C;

/// The byte `>`.
pub const GREATER: u8 = 0x3E;

/// The byte `"`.
pub const QUOTE: u8 = 0x22;

/// The byte `\\`.
pub const BACKSLASH: u8 = 0x5C;


/// ASCII whitespace: space, tab, line feed, form feed, carriage return.
pub open spec fn is_ws_byte(b: u8) -> bool {
    b == 0x20u8 || b == 0x09u8 || b == 0x0Au8 || b == 0x0Cu8 || b == 0x0Du8
}

/// An ASCII decimal digit.
pub open spec fn is_digit_byte(b: u8) -> bool {
    0x30u8 <= b <= 0x39u8
}

/// Whether the character with code point `b` (a Latin-1 character) is
/// alphabetic in the sense of the Unicode `Alphabetic` property: the ASCII
/// letters, `ª`, `µ`, `º`, and the Latin-1 letters except `×` and `÷`.
pub open spec fn is_alpha_byte(b: u8) -> bool {
    ||| 0x41u8 <= b <= 0x5Au8
    ||| 0x61u8 <= b <= 0x7Au8
    ||| b == 0xAAu8
    ||| b == 0xB5u8
    ||| b == 0xBAu8
    ||| 0xC0u8 <= b <= 0xD6u8
    ||| 0xD8u8 <= b <= 0xF6u8
    ||| 0xF8u8 <= b
}

/// Whether the character with code point `b` is alphabetic or numeric
/// (general category Nd, Nl or No): the alphabetic ones above, the ASCII
/// digits, `²`, `³`, `¹`, `¼`, `½` and `¾`.
pub open spec fn is_alnum_byte(b: u8) -> bool {
    ||| is_alpha_byte(b)
    ||| is_digit_byte(b)
    ||| b == 0xB2u8
    ||| b == 0xB3u8
    ||| b == 0xB9u8
    ||| 0xBCu8 <= b <= 0xBEu8
}

/// Whether `b` is ASCII whitespace.
pub(crate) fn byte_is_ws(b: u8) -> (r: bool)
    ensures
        r == is_ws_byte(b),
{
    b == 0x20u8 || b == 0x09u8 || b == 0x0Au8 || b == 0x0Cu8 || b == 0x0Du8
}

/// Whether `b` is an ASCII decimal digit.
pub(crate) fn byte_is_digit(b: u8) -> (r: bool)
    ensures
        r == is_digit_byte(b),
{
    0x30u8 <= b && b <= 0x39u8
}

/// Calls `char::is_alphabetic` on the character whose code point is `b`.
/// Trusted: the contract claims that std answers, on the 256 Latin-1 code
/// points, as the Unicode `Alphabetic` property does (`is_alpha_byte`).
#[verifier::external_body]
pub(crate) fn byte_is_alpha(b: u8) -> (r: bool)
    ensures
        r == is_alpha_byte(b),
{
    char::is_alphabetic(b as char)
}

/// Calls `char::is_alphanumeric` on the character whose code point is `b`.
/// Trusted: the contract claims that std answers, on the 256 Latin-1 code
/// points, alphabetic-or-numeric as described by `is_alnum_byte`.
#[verifier::external_body]
pub(crate) fn byte_is_alnum(b: u8) -> (r: bool)
    ensures
        r == is_alnum_byte(b),
{
    char::is_alphanumeric(b as char)
}

} // verus!
