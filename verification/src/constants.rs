//! The bytes that delimit JSON tokens, and the byte classes the decoder scans by.
use vstd::prelude::*;

verus! {

pub const COLON: u8 = 0x3a;
pub const COMMA: u8 = 0x2c;
pub const DECIMAL: u8 = 0x2e;
pub const ESCAPE: u8 = 0x5c;
pub const QUOTE: u8 = 0x22;
pub const LIST_BEGIN: u8 = 0x5b;
pub const LIST_END: u8 = 0x5d;
pub const MAP_BEGIN: u8 = 0x7b;
pub const MAP_END: u8 = 0x7d;
/// The exponent markers of a number, lower and upper case.
pub const EXPONENT: u8 = 0x65;
pub const EXPONENT_UPPER: u8 = 0x45;

/// `true` of the bytes that may occur in a JSON number token: the digits,
/// the signs `-` and `+`, `e`, `E` and `.`.
pub open spec fn spec_is_numeric(b: u8) -> bool {
    (0x30 <= b && b <= 0x39) || b == 0x2d || b == 0x2b || b == 0x65 || b == 0x45 || b == 0x2e
}

#[verifier::when_used_as_spec(spec_is_numeric)]
pub fn is_numeric(b: u8) -> (r: bool)
    ensures
        r == spec_is_numeric(b),
{
    (0x30 <= b && b <= 0x39) || b == 0x2d || b == 0x2b || b == 0x65 || b == 0x45 || b == 0x2e
}

/// `true` of the bytes that make the decoder read a number where a value
/// starts: the numeric bytes other than `+`, which only signs an exponent.
pub open spec fn spec_starts_number(b: u8) -> bool {
    spec_is_numeric(b) && b != 0x2b
}

#[verifier::when_used_as_spec(spec_starts_number)]
pub fn starts_number(b: u8) -> (r: bool)
    ensures
        r == spec_starts_number(b),
{
    is_numeric(b) && b != 0x2b
}

/// `true` of the bytes that, read as a `char`, are white space: tab, line
/// feed, vertical tab, form feed, carriage return, space, U+0085 and U+00A0.
pub open spec fn spec_is_whitespace(b: u8) -> bool {
    (0x09 <= b && b <= 0x0d) || b == 0x20 || b == 0x85 || b == 0xa0
}

#[verifier::when_used_as_spec(spec_is_whitespace)]
pub fn is_whitespace(b: u8) -> (r: bool)
    ensures
        r == spec_is_whitespace(b),
{
    (0x09 <= b && b <= 0x0d) || b == 0x20 || b == 0x85 || b == 0xa0
}

/// `true` of the bytes that end a run of plain characters inside a string:
/// the control characters, the quote and the backslash.
pub open spec fn spec_is_escape_char(b: u8) -> bool {
    b < 0x20 || b == QUOTE || b == ESCAPE
}

#[verifier::when_used_as_spec(spec_is_escape_char)]
pub fn is_escape_char(b: u8) -> (r: bool)
    ensures
        r == spec_is_escape_char(b),
{
    b < 0x20 || b == QUOTE || b == ESCAPE
}

/// `true` of the ASCII decimal digits.
pub open spec fn spec_is_digit(b: u8) -> bool {
    0x30 <= b && b <= 0x39
}

#[verifier::when_used_as_spec(spec_is_digit)]
pub fn is_digit(b: u8) -> (r: bool)
    ensures
        r == spec_is_digit(b),
{
    0x30 <= b && b <= 0x39
}

} // verus!
