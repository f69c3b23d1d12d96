//! What the decoder reads from its input, as functions of the input bytes.
//!
//! Each function here takes the input `w` that is left when an operation
//! starts and gives a [`Step`]: what the operation returns, how many bytes
//! it consumes, and whether it had to look past the end of `w` (which is
//! where a stream that fails there reports its failure, and where a stream
//! that has not delivered more yet is waited for).
use vstd::prelude::*;

use crate::constants::{spec_is_whitespace, spec_is_numeric, spec_starts_number, spec_is_digit, spec_is_escape_char};
use crate::de::error::ErrorView;
use crate::de::lemmas::lemma_scan_end_bounds;
use vstd::utf8::{valid_utf8, decode_utf8, encode_scalar};

verus! {

/// The outcome of a decoder operation on its input.
pub struct Step<V> {
    pub result: Result<V, ErrorView>,
    pub pos: int,
    pub hit_end: bool,
}

/// A step that gives `v`, having consumed `pos` bytes.
pub open spec fn ok_step<V>(v: V, pos: int, hit_end: bool) -> Step<V> {
    Step { result: Ok(v), pos, hit_end }
}

/// A step that fails with `e`, having consumed `pos` bytes.
pub open spec fn err_step<V>(e: ErrorView, pos: int, hit_end: bool) -> Step<V> {
    Step { result: Err(e), pos, hit_end }
}

/// `s2` run on what `s1` leaves.
pub open spec fn then<A, B>(s1: Step<A>, s2: Step<B>) -> Step<B> {
    Step { result: s2.result, pos: s1.pos + s2.pos, hit_end: s1.hit_end || s2.hit_end }
}

/// The failed step `s` with its result's value type changed.
pub open spec fn fail<A, B>(s: Step<A>) -> Step<B> {
    Step {
        result: Err(match s.result {
            Err(e) => e,
            Ok(_) => ErrorView::UnexpectedEnd,
        }),
        pos: s.pos,
        hit_end: s.hit_end,
    }
}

/// The byte classes that the decoder scans runs of.
#[derive(Clone, Copy)]
pub enum ByteClass {
    Whitespace,
    Numeric,
    Digit,
    /// The bytes of a number token that leave it an integer: the numeric
    /// bytes other than `.`, `e` and `E`.
    IntegerLike,
}

/// Whether `b` makes a number token a float: `.`, `e` or `E`.
pub open spec fn float_marker(b: u8) -> bool {
    b == 0x2e || b == 0x65 || b == 0x45
}

/// Whether `b` belongs to the class `c`.
pub open spec fn in_class(c: ByteClass, b: u8) -> bool {
    match c {
        ByteClass::Whitespace => spec_is_whitespace(b),
        ByteClass::Numeric => spec_is_numeric(b),
        ByteClass::Digit => spec_is_digit(b),
        ByteClass::IntegerLike => spec_is_numeric(b) && !float_marker(b),
    }
}

/// The end of the run of bytes of class `c` that starts at `i`.
pub open spec fn scan_end(w: Seq<u8>, i: int, c: ByteClass) -> int
    decreases w.len() - i,
{
    if 0 <= i < w.len() && in_class(c, w[i]) {
        scan_end(w, i + 1, c)
    } else {
        i
    }
}

/// The length of the white space that starts `w`.
pub open spec fn ws_len(w: Seq<u8>) -> int {
    scan_end(w, 0, ByteClass::Whitespace)
}

pub open spec fn bytes_true() -> Seq<u8> {
    seq![0x74u8, 0x72u8, 0x75u8, 0x65u8]
}

pub open spec fn bytes_false() -> Seq<u8> {
    seq![0x66u8, 0x61u8, 0x6cu8, 0x73u8, 0x65u8]
}

pub open spec fn bytes_null() -> Seq<u8> {
    seq![0x6eu8, 0x75u8, 0x6cu8, 0x6cu8]
}

/// Whether `w` starts with `p`.
pub open spec fn starts_with(w: Seq<u8>, p: Seq<u8>) -> bool {
    p.len() <= w.len() && w.take(p.len() as int) == p
}

/// Reading one byte, which must be there.
pub open spec fn sp_next_or_eof(w: Seq<u8>) -> Step<u8> {
    if w.len() > 0 {
        ok_step(w[0], 1, false)
    } else {
        err_step(ErrorView::UnexpectedEnd, 0, true)
    }
}

/// Looking at the next byte without consuming it.
pub open spec fn sp_peek(w: Seq<u8>) -> Step<Option<u8>> {
    if w.len() > 0 {
        ok_step(Some(w[0]), 0, false)
    } else {
        ok_step(None, 0, true)
    }
}

/// Looking at the next byte without consuming it; 0 at the end.
pub open spec fn sp_peek_or_null(w: Seq<u8>) -> Step<u8> {
    if w.len() > 0 {
        ok_step(w[0], 0, false)
    } else {
        ok_step(0u8, 0, true)
    }
}

/// Reading the next byte, if there is one.
pub open spec fn sp_next_char(w: Seq<u8>) -> Step<Option<u8>> {
    if w.len() > 0 {
        ok_step(Some(w[0]), 1, false)
    } else {
        ok_step(None, 0, true)
    }
}

/// Reading the next byte; 0 at the end.
pub open spec fn sp_next_char_or_null(w: Seq<u8>) -> Step<u8> {
    if w.len() > 0 {
        ok_step(w[0], 1, false)
    } else {
        ok_step(0u8, 0, true)
    }
}

/// Consuming the next byte, if there is one.
pub open spec fn sp_eat_char(w: Seq<u8>) -> Step<()> {
    if w.len() > 0 {
        ok_step((), 1, false)
    } else {
        ok_step((), 0, true)
    }
}

/// Counting the run of bytes of class `c` that starts the input, without
/// consuming it.
pub open spec fn sp_buffer_while(w: Seq<u8>, c: ByteClass) -> Step<int> {
    let j = scan_end(w, 0, c);
    ok_step(j, 0, j >= w.len())
}

/// Skipping white space.
pub open spec fn sp_whitespace(w: Seq<u8>) -> Step<()> {
    let j = ws_len(w);
    ok_step((), j, j >= w.len())
}

/// Consuming the delimiter `d`, which must come next.
pub open spec fn sp_expect_delimiter(w: Seq<u8>, d: u8) -> Step<()> {
    if w.len() == 0 {
        err_step(ErrorView::UnexpectedEnd, 0, true)
    } else if w[0] == d {
        ok_step((), 1, false)
    } else {
        err_step(ErrorView::UnexpectedDelimiter(w[0], d, Seq::empty()), 0, false)
    }
}

/// Consuming the delimiter `d` if it comes next; whether it did.
pub open spec fn sp_maybe_delimiter(w: Seq<u8>, d: u8) -> Step<bool> {
    if w.len() == 0 {
        ok_step(false, 0, true)
    } else if w[0] == d {
        ok_step(true, 1, false)
    } else {
        ok_step(false, 0, false)
    }
}

/// Reading `true` or `false` after white space.
pub open spec fn sp_parse_bool(w: Seq<u8>) -> Step<bool> {
    let j = ws_len(w);
    let v = w.skip(j);
    if v.len() == 0 {
        err_step(ErrorView::UnexpectedEnd, j, true)
    } else if starts_with(v, bytes_true()) {
        ok_step(true, j + 4, false)
    } else if starts_with(v, bytes_false()) {
        ok_step(false, j + 5, false)
    } else {
        err_step(ErrorView::InvalidBool(Seq::empty()), j, v.len() < 5)
    }
}

/// Reading `null` after white space.
pub open spec fn sp_parse_unit(w: Seq<u8>) -> Step<()> {
    let j = ws_len(w);
    let v = w.skip(j);
    if starts_with(v, bytes_null()) {
        ok_step((), j + 4, false)
    } else {
        err_step(ErrorView::InvalidUnit(Seq::empty()), j, v.len() < 4)
    }
}

/// Skipping white space and then `null` if it comes next; whether it did.
pub open spec fn sp_parse_null(w: Seq<u8>) -> Step<bool> {
    let j = ws_len(w);
    let v = w.skip(j);
    if starts_with(v, bytes_null()) {
        ok_step(true, j + 4, false)
    } else {
        ok_step(false, j, v.len() < 4)
    }
}

/// Whether the byte at `i` of a string's body is escaped by the backslash before it.
pub open spec fn escaped(v: Seq<u8>, i: int) -> bool
    decreases i,
{
    if i <= 0 {
        false
    } else {
        !escaped(v, i - 1) && v[i - 1] == 0x5cu8
    }
}

/// The index of the quote that closes a string's body `v`, searching from
/// `i`; `v.len()` where there is none.
pub open spec fn close_index(v: Seq<u8>, i: int) -> int
    decreases v.len() - i,
{
    if i < 0 || i >= v.len() {
        v.len() as int
    } else if v[i] == 0x22u8 && !escaped(v, i) {
        i
    } else {
        close_index(v, i + 1)
    }
}

/// The byte that a backslash followed by `b` stands for, where `b` is one
/// of the escapes of JSON that stand for a single byte.
pub open spec fn simple_escape_byte(b: u8) -> Option<u8> {
    if b == 0x22 || b == 0x5c || b == 0x2f {
        Some(b)
    } else if b == 0x62 {
        Some(0x08u8)
    } else if b == 0x66 {
        Some(0x0cu8)
    } else if b == 0x6e {
        Some(0x0au8)
    } else if b == 0x72 {
        Some(0x0du8)
    } else if b == 0x74 {
        Some(0x09u8)
    } else {
        None
    }
}

/// The value of the four hex digits at `i` of `s`, where there are four.
pub open spec fn hex4(s: Seq<u8>, i: int) -> Option<int> {
    if 0 <= i && i + 4 <= s.len() {
        match (hex_value(s[i]), hex_value(s[i + 1]), hex_value(s[i + 2]), hex_value(s[i + 3])) {
            (Some(a), Some(b), Some(c), Some(d)) => Some(a * 4096 + b * 256 + c * 16 + d),
            _ => None,
        }
    } else {
        None
    }
}

/// `p` before the bytes of `r`, where `r` holds bytes.
pub open spec fn prepend(p: Seq<u8>, r: Result<Seq<u8>, ErrorView>) -> Result<Seq<u8>, ErrorView> {
    match r {
        Ok(x) => Ok(p + x),
        Err(e) => Err(e),
    }
}

/// The bytes that a string's body `s` stands for: each escape of JSON
/// replaced by what it stands for (a `\u` escape, or a pair of them for a
/// character beyond the first plane, by the UTF-8 encoding of its
/// character), every other byte kept. An escape that JSON does not define,
/// a `\u` escape without four hex digits, and half of a surrogate pair
/// without the other half are errors.
pub open spec fn unescape(s: Seq<u8>) -> Result<Seq<u8>, ErrorView>
    decreases s.len(),
{
    if s.len() == 0 {
        Ok(Seq::empty())
    } else if s[0] != 0x5cu8 {
        prepend(seq![s[0]], unescape(s.drop_first()))
    } else if s.len() < 2 {
        Err(ErrorView::InvalidEscape)
    } else if s[1] != 0x75u8 {
        match simple_escape_byte(s[1]) {
            Some(c) => prepend(seq![c], unescape(s.skip(2))),
            None => Err(ErrorView::InvalidEscape),
        }
    } else {
        match hex4(s, 2) {
            None => Err(ErrorView::InvalidHexEscape),
            Some(hi) => if 0xdc00 <= hi < 0xe000 {
                Err(ErrorView::LoneSurrogate)
            } else if hi < 0xd800 || 0xe000 <= hi {
                prepend(encode_scalar(hi as u32), unescape(s.skip(6)))
            } else if s.len() < 8 || s[6] != 0x5cu8 || s[7] != 0x75u8 {
                Err(ErrorView::LoneSurrogate)
            } else {
                match hex4(s, 8) {
                    None => Err(ErrorView::InvalidHexEscape),
                    Some(lo) => if 0xdc00 <= lo < 0xe000 && s.len() >= 12 {
                        prepend(
                            encode_scalar((0x10000 + (hi - 0xd800) * 0x400 + (lo - 0xdc00)) as u32),
                            unescape(s.skip(12)),
                        )
                    } else {
                        Err(ErrorView::LoneSurrogate)
                    },
                }
            },
        }
    }
}

/// Reading a quoted string: its body up to the quote that no backslash
/// escapes, with its escapes replaced by what they stand for. The string
/// is consumed whole also where an escape in it is invalid.
pub open spec fn sp_buffer_string(w: Seq<u8>) -> Step<Seq<u8>> {
    if w.len() == 0 {
        err_step(ErrorView::UnexpectedEnd, 0, true)
    } else if w[0] != 0x22u8 {
        err_step(ErrorView::UnexpectedDelimiter(w[0], 0x22u8, Seq::empty()), 0, false)
    } else {
        let v = w.drop_first();
        let q = close_index(v, 0);
        if q < v.len() {
            match unescape(v.take(q)) {
                Ok(b) => ok_step(b, q + 2, false),
                Err(e) => err_step(e, q + 2, false),
            }
        } else {
            err_step(ErrorView::UnexpectedEnd, 1, true)
        }
    }
}

/// Reading a quoted string as text: the bytes it stands for must be valid
/// UTF-8.
pub open spec fn sp_parse_string(w: Seq<u8>) -> Step<Seq<char>> {
    let s = sp_buffer_string(w);
    match s.result {
        Ok(b) => if valid_utf8(b) {
            ok_step(decode_utf8(b), s.pos, s.hit_end)
        } else {
            err_step(ErrorView::InvalidUtf8, s.pos, s.hit_end)
        },
        Err(e) => err_step(e, s.pos, s.hit_end),
    }
}

/// The value of a nonempty run of decimal digits.
pub open spec fn digits_value(s: Seq<u8>) -> nat
    decreases s.len(),
{
    if s.len() == 0 {
        0
    } else {
        digits_value(s.drop_last()) * 10 + (s.last() - 0x30u8) as nat
    }
}

pub open spec fn all_digits(s: Seq<u8>) -> bool {
    forall|i: int| 0 <= i < s.len() ==> spec_is_digit(#[trigger] s[i])
}

/// The integer a number token spells: an optional `-` (for signed types
/// only) and one or more decimal digits.
pub open spec fn integer_value(s: Seq<u8>, signed: bool) -> Option<int> {
    if signed && s.len() > 0 && s[0] == 0x2du8 {
        let d = s.drop_first();
        if d.len() > 0 && all_digits(d) {
            Some(-(digits_value(d) as int))
        } else {
            None
        }
    } else if s.len() > 0 && all_digits(s) {
        Some(digits_value(s) as int)
    } else {
        None
    }
}

/// Reading the number token after white space, without consuming it.
pub open spec fn sp_number_token(w: Seq<u8>) -> Step<Seq<u8>> {
    let j = ws_len(w);
    let v = w.skip(j);
    let n = scan_end(v, 0, ByteClass::Numeric);
    ok_step(v.take(n), j, n >= v.len())
}

/// Reading an integer in `[min, max]` after white space.
pub open spec fn sp_parse_integer(w: Seq<u8>, signed: bool, min: int, max: int) -> Step<int> {
    let j = ws_len(w);
    let v = w.skip(j);
    let n = scan_end(v, 0, ByteClass::Numeric);
    let token = v.take(n);
    match integer_value(token, signed) {
        Some(x) => if min <= x <= max {
            ok_step(x, j + n, n >= v.len())
        } else {
            err_step(ErrorView::InvalidInteger(token), j, n >= v.len())
        },
        None => err_step(ErrorView::InvalidInteger(token), j, n >= v.len()),
    }
}

/// Whether a number that starts `w` is read as a float: a `.`, `e` or `E`
/// comes before any byte that cannot be part of a number.
pub open spec fn sp_number_is_float(w: Seq<u8>) -> Step<bool> {
    let j = scan_end(w, 0, ByteClass::IntegerLike);
    ok_step(j < w.len() && float_marker(w[j]), 0, j >= w.len())
}

/// The kinds of JSON value that the decoder tells apart by their first bytes.
#[derive(Debug, Clone, Copy, PartialEq, Eq, Structural)]
pub enum ValueKind {
    String,
    Array,
    Object,
    Integer,
    Float,
    Bool,
    Null,
}

/// Telling what kind of value comes after white space, without consuming
/// it.
pub open spec fn sp_value_kind(w: Seq<u8>) -> Step<ValueKind> {
    let j = ws_len(w);
    let v = w.skip(j);
    if v.len() == 0 {
        err_step(ErrorView::UnexpectedEnd, j, true)
    } else if v[0] == 0x22u8 {
        ok_step(ValueKind::String, j, false)
    } else if v[0] == 0x5bu8 {
        ok_step(ValueKind::Array, j, false)
    } else if v[0] == 0x7bu8 {
        ok_step(ValueKind::Object, j, false)
    } else if spec_starts_number(v[0]) {
        let s = sp_number_is_float(v);
        ok_step(
            if s.result == Ok::<bool, ErrorView>(true) { ValueKind::Float } else { ValueKind::Integer },
            j,
            s.hit_end,
        )
    } else if starts_with(v, bytes_true()) {
        ok_step(ValueKind::Bool, j, false)
    } else if starts_with(v, bytes_null()) {
        ok_step(ValueKind::Null, j, false)
    } else if starts_with(v, bytes_false()) {
        ok_step(ValueKind::Bool, j, false)
    } else {
        err_step(ErrorView::InvalidAny(Seq::empty()), j, v.len() < 5)
    }
}

/// Consuming the bytes of `s`, each of which must come next in turn.
#[verifier::opaque]
pub open spec fn sp_ignore_exactly(w: Seq<u8>, s: Seq<u8>) -> Step<()>
    decreases s.len(),
{
    if s.len() == 0 {
        ok_step((), 0, false)
    } else if w.len() == 0 {
        err_step(ErrorView::UnexpectedEnd, 0, true)
    } else if w[0] != s[0] {
        err_step(ErrorView::UnexpectedChar(w[0], s[0]), 1, false)
    } else {
        then(ok_step((), 1, false), sp_ignore_exactly(w.drop_first(), s.drop_first()))
    }
}

/// The value of a hex digit.
pub open spec fn hex_value(b: u8) -> Option<u16> {
    if 0x30 <= b <= 0x39 {
        Some((b - 0x30) as u16)
    } else if 0x61 <= b <= 0x66 {
        Some((b - 0x61 + 10) as u16)
    } else if 0x41 <= b <= 0x46 {
        Some((b - 0x41 + 10) as u16)
    } else {
        None
    }
}

/// Reading `k` more hex digits onto the value `acc`.
pub open spec fn sp_hex_digits(w: Seq<u8>, k: nat, acc: int) -> Step<int>
    decreases k,
{
    if k == 0 {
        ok_step(acc, 0, false)
    } else if w.len() == 0 {
        err_step(ErrorView::UnexpectedEnd, 0, true)
    } else {
        match hex_value(w[0]) {
            None => err_step(ErrorView::InvalidHexEscape, 1, false),
            Some(d) => then(
                ok_step((), 1, false),
                sp_hex_digits(w.drop_first(), (k - 1) as nat, acc * 16 + d),
            ),
        }
    }
}

/// Reading the four hex digits of a `\u` escape.
pub open spec fn sp_hex_escape(w: Seq<u8>) -> Step<int> {
    sp_hex_digits(w, 4, 0)
}

/// Whether `b` may follow a backslash on its own.
pub open spec fn simple_escape(b: u8) -> bool {
    b == 0x22 || b == 0x5c || b == 0x2f || b == 0x62 || b == 0x66 || b == 0x6e || b == 0x72 || b
        == 0x74
}

/// Skipping the escape sequence after a backslash.
pub open spec fn sp_ignore_escaped_char(w: Seq<u8>) -> Step<()> {
    if w.len() == 0 {
        err_step(ErrorView::UnexpectedEnd, 0, true)
    } else if simple_escape(w[0]) {
        ok_step((), 1, false)
    } else if w[0] == 0x75u8 {
        let h = sp_hex_escape(w.drop_first());
        match h.result {
            Ok(_) => then(ok_step((), 1, false), ok_step((), h.pos, h.hit_end)),
            Err(e) => then(ok_step((), 1, false), err_step(e, h.pos, h.hit_end)),
        }
    } else {
        err_step(ErrorView::InvalidEscape, 1, false)
    }
}

/// Skipping the rest of a string after its opening quote.
pub open spec fn sp_string_body(w: Seq<u8>) -> Step<()>
    decreases w.len(),
{
    if w.len() == 0 {
        err_step(ErrorView::UnexpectedEnd, 0, true)
    } else {
        let ch = w[0];
        if !spec_is_escape_char(ch) {
            then(ok_step((), 1, false), sp_string_body(w.drop_first()))
        } else if ch == 0x22u8 {
            ok_step((), 1, false)
        } else if ch == 0x5cu8 {
            let e = sp_ignore_escaped_char(w.drop_first());
            match e.result {
                Err(x) => then(ok_step((), 1, false), e),
                Ok(_) => if 0 <= e.pos <= w.len() - 1 {
                    then(
                        ok_step((), 1 + e.pos, e.hit_end),
                        sp_string_body(w.skip(1 + e.pos)),
                    )
                } else {
                    then(ok_step((), 1, false), e)
                },
            }
        } else {
            err_step(ErrorView::ControlCharacter(ch), 1, false)
        }
    }
}

/// Skipping a string: its first byte (the opening quote) and its body.
#[verifier::opaque]
pub open spec fn sp_ignore_string(w: Seq<u8>) -> Step<()> {
    if w.len() == 0 {
        err_step(ErrorView::UnexpectedEnd, 0, true)
    } else {
        then(ok_step((), 1, false), sp_string_body(w.drop_first()))
    }
}

/// Skipping a run of decimal digits.
pub open spec fn sp_skip_digits(w: Seq<u8>) -> Step<()> {
    let k = scan_end(w, 0, ByteClass::Digit);
    ok_step((), k, k >= w.len())
}

/// Skipping an exponent: its marker, an optional sign and one or more digits.
pub open spec fn sp_ignore_exponent(w: Seq<u8>) -> Step<()> {
    let m = sp_eat_char(w);
    let v = w.skip(m.pos);
    let sign: int = if v.len() > 0 && (v[0] == 0x2bu8 || v[0] == 0x2du8) { 1 } else { 0 };
    let u = v.skip(sign);
    let c = sp_next_char_or_null(u);
    let cb = if u.len() > 0 { u[0] } else { 0u8 };
    let pre_hit = m.hit_end || v.len() == 0 || u.len() == 0;
    if !spec_is_digit(cb) {
        err_step(ErrorView::MissingExponentDigit(cb), m.pos + sign + c.pos, pre_hit)
    } else {
        let x = u.drop_first();
        let k = scan_end(x, 0, ByteClass::Digit);
        ok_step((), m.pos + sign + 1 + k, pre_hit || k >= x.len())
    }
}

/// Skipping a fraction: its point and one or more digits, then an exponent
/// if one comes next.
pub open spec fn sp_ignore_decimal(w: Seq<u8>) -> Step<()> {
    let m = sp_eat_char(w);
    let v = w.skip(m.pos);
    let k = scan_end(v, 0, ByteClass::Digit);
    let u = v.skip(k);
    if k == 0 {
        err_step(ErrorView::MissingFractionDigit, m.pos, m.hit_end || v.len() == 0)
    } else if u.len() > 0 && (u[0] == 0x65u8 || u[0] == 0x45u8) {
        then(ok_step((), m.pos + k, m.hit_end), sp_ignore_exponent(u))
    } else {
        ok_step((), m.pos + k, m.hit_end || u.len() == 0)
    }
}

/// What follows the integer part of a number: a fraction, an exponent or
/// nothing.
pub open spec fn sp_number_rest(w: Seq<u8>) -> Step<()> {
    if w.len() > 0 && w[0] == 0x2eu8 {
        sp_ignore_decimal(w)
    } else if w.len() > 0 && (w[0] == 0x65u8 || w[0] == 0x45u8) {
        sp_ignore_exponent(w)
    } else {
        ok_step((), 0, w.len() == 0)
    }
}

/// Skipping a number without its sign.
#[verifier::opaque]
pub open spec fn sp_ignore_number(w: Seq<u8>) -> Step<()> {
    let c = sp_next_char_or_null(w);
    let cb = if w.len() > 0 { w[0] } else { 0u8 };
    let v = w.skip(c.pos);
    let nb = if v.len() > 0 { v[0] } else { 0u8 };
    if cb == 0x30u8 {
        if spec_is_digit(nb) {
            err_step(ErrorView::LeadingZero, c.pos, false)
        } else {
            then(ok_step((), c.pos, v.len() == 0), sp_number_rest(v))
        }
    } else if spec_is_digit(cb) {
        let k = scan_end(v, 0, ByteClass::Digit);
        then(ok_step((), c.pos + k, k >= v.len()), sp_number_rest(v.skip(k)))
    } else {
        err_step(ErrorView::InvalidNumber(nb), c.pos, c.hit_end || v.len() == 0)
    }
}


/// Skipping one JSON value after white space; nothing at the end of the input.
pub open spec fn sp_ignore_value(w: Seq<u8>) -> Step<()>
    decreases w.len(), 3int,
{
    let j = ws_len(w);
    proof {
        lemma_scan_end_bounds(w, 0, ByteClass::Whitespace);
    }
    let v = w.skip(j);
    if v.len() == 0 {
        ok_step((), j, true)
    } else {
        let b = v[0];
        let s: Step<()> = if b == 0x22u8 {
            sp_ignore_string(v)
        } else if b == 0x2du8 {
            then(ok_step((), 1, false), sp_ignore_number(v.drop_first()))
        } else if spec_is_digit(b) {
            sp_ignore_number(v)
        } else if b == 0x74u8 {
            sp_ignore_exactly(v, bytes_true())
        } else if b == 0x66u8 {
            sp_ignore_exactly(v, bytes_false())
        } else if b == 0x6eu8 {
            sp_ignore_exactly(v, bytes_null())
        } else if b == 0x5bu8 {
            sp_ignore_array(v)
        } else if b == 0x7bu8 {
            sp_ignore_object(v)
        } else {
            err_step(ErrorView::UnexpectedToken(b), 0, false)
        };
        then(ok_step((), j, false), s)
    }
}

/// Skipping an array: its opening bracket and what follows up to the
/// closing one.
#[verifier::opaque]
pub open spec fn sp_ignore_array(w: Seq<u8>) -> Step<()>
    decreases w.len(), 2int,
{
    if w.len() == 0 {
        err_step(ErrorView::UnexpectedEnd, 0, true)
    } else {
        then(ok_step((), 1, false), sp_array_items(w.drop_first()))
    }
}

/// Skipping what comes next in an array after white space: the closing
/// bracket (`true`), a comma or an item (`false`). An input that ends
/// inside the array is an error.
#[verifier::opaque]
pub open spec fn sp_array_item(u: Seq<u8>) -> Step<bool>
    decreases u.len(), 5int,
{
    let j = ws_len(u);
    proof {
        lemma_scan_end_bounds(u, 0, ByteClass::Whitespace);
    }
    let v = u.skip(j);
    if v.len() == 0 {
        err_step(ErrorView::UnexpectedEnd, j, true)
    } else if v[0] == 0x5du8 {
        ok_step(true, j + 1, false)
    } else if v[0] == 0x2cu8 {
        ok_step(false, j + 1, false)
    } else {
        let s = sp_ignore_value(v);
        match s.result {
            Err(e) => err_step(e, j + s.pos, s.hit_end),
            Ok(_) => ok_step(false, j + s.pos, s.hit_end),
        }
    }
}

/// Skipping the items of an array and its closing bracket.
#[verifier::opaque]
pub open spec fn sp_array_items(u: Seq<u8>) -> Step<()>
    decreases u.len(), 6int,
{
    let s = sp_array_item(u);
    match s.result {
        Err(e) => err_step(e, s.pos, s.hit_end),
        Ok(true) => ok_step((), s.pos, s.hit_end),
        Ok(false) => if 1 <= s.pos <= u.len() {
            then(ok_step((), s.pos, s.hit_end), sp_array_items(u.skip(s.pos)))
        } else {
            err_step(ErrorView::UnexpectedEnd, s.pos, s.hit_end)
        },
    }
}

/// Skipping an object: its opening brace and what follows up to the
/// closing one.
#[verifier::opaque]
pub open spec fn sp_ignore_object(w: Seq<u8>) -> Step<()>
    decreases w.len(), 2int,
{
    if w.len() == 0 {
        err_step(ErrorView::UnexpectedEnd, 0, true)
    } else {
        then(ok_step((), 1, false), sp_object_entries(w.drop_first()))
    }
}

/// Skipping one entry of an object: its key (a string), a colon and its value.
#[verifier::opaque]
pub open spec fn sp_object_entry(v: Seq<u8>) -> Step<()>
    decreases v.len(), 1int,
{
    let k = sp_ignore_string(v);
    match k.result {
        Err(_) => k,
        Ok(_) => if 1 <= k.pos <= v.len() {
            let u = v.skip(k.pos);
            let j2 = ws_len(u);
            proof {
                lemma_scan_end_bounds(u, 0, ByteClass::Whitespace);
            }
            let x = u.skip(j2);
            let c = sp_ignore_exactly(x, seq![0x3au8]);
            let h = k.hit_end || j2 >= u.len();
            match c.result {
                Err(_) => then(ok_step((), k.pos + j2, h), c),
                Ok(_) => if 0 <= c.pos <= x.len() {
                    then(ok_step((), k.pos + j2 + c.pos, h || c.hit_end), sp_ignore_value(x.skip(c.pos)))
                } else {
                    then(ok_step((), k.pos + j2, h), c)
                },
            }
        } else {
            k
        },
    }
}

/// Skipping what comes next in an object after white space: the closing
/// brace (`true`), a comma or an entry (`false`).
#[verifier::opaque]
pub open spec fn sp_object_member(u: Seq<u8>) -> Step<bool>
    decreases u.len(), 5int,
{
    let j = ws_len(u);
    proof {
        lemma_scan_end_bounds(u, 0, ByteClass::Whitespace);
    }
    let v = u.skip(j);
    let b = if v.len() > 0 { v[0] } else { 0u8 };
    let ph = v.len() == 0;
    if b == 0x7du8 {
        ok_step(true, j + 1, false)
    } else if b == 0x2cu8 {
        ok_step(false, j + 1, false)
    } else {
        let e = sp_object_entry(v);
        match e.result {
            Err(x) => err_step(x, j + e.pos, ph || e.hit_end),
            Ok(_) => ok_step(false, j + e.pos, ph || e.hit_end),
        }
    }
}

/// Skipping the entries of an object and its closing brace.
#[verifier::opaque]
pub open spec fn sp_object_entries(u: Seq<u8>) -> Step<()>
    decreases u.len(), 6int,
{
    let s = sp_object_member(u);
    match s.result {
        Err(e) => err_step(e, s.pos, s.hit_end),
        Ok(true) => ok_step((), s.pos, s.hit_end),
        Ok(false) => if 1 <= s.pos <= u.len() {
            then(ok_step((), s.pos, s.hit_end), sp_object_entries(u.skip(s.pos)))
        } else {
            err_step(ErrorView::UnexpectedEnd, s.pos, s.hit_end)
        },
    }
}


/// Opening a container after white space: its opening delimiter `open`,
/// white space, and then its closing delimiter `close` if that comes next,
/// in which case the container is already done (`true`).
pub open spec fn sp_begin(w: Seq<u8>, open: u8, close: u8) -> Step<bool> {
    let a = sp_whitespace(w);
    let v1 = w.skip(a.pos);
    let d = sp_expect_delimiter(v1, open);
    match d.result {
        Err(e) => err_step(e, a.pos + d.pos, a.hit_end || d.hit_end),
        Ok(_) => {
            let v2 = v1.skip(d.pos);
            let b = sp_whitespace(v2);
            let m = sp_maybe_delimiter(v2.skip(b.pos), close);
            Step {
                result: m.result,
                pos: a.pos + d.pos + b.pos + m.pos,
                hit_end: a.hit_end || d.hit_end || b.hit_end || m.hit_end,
            }
        },
    }
}

/// What follows a map key: white space, a colon and white space.
pub open spec fn sp_after_key(w: Seq<u8>) -> Step<()> {
    let a = sp_whitespace(w);
    let v1 = w.skip(a.pos);
    let d = sp_expect_delimiter(v1, 0x3au8);
    match d.result {
        Err(e) => err_step(e, a.pos + d.pos, a.hit_end || d.hit_end),
        Ok(_) => {
            let v2 = v1.skip(d.pos);
            let b = sp_whitespace(v2);
            ok_step((), a.pos + d.pos + b.pos, a.hit_end || d.hit_end || b.hit_end)
        },
    }
}

/// What follows an element of a container: white space, then either the
/// closing delimiter `close` (the container is done, `true`) or a comma.
pub open spec fn sp_after_item(w: Seq<u8>, close: u8) -> Step<bool> {
    let a = sp_whitespace(w);
    let v1 = w.skip(a.pos);
    let m = sp_maybe_delimiter(v1, close);
    if m.result == Ok::<bool, ErrorView>(true) {
        ok_step(true, a.pos + m.pos, a.hit_end || m.hit_end)
    } else {
        let d = sp_expect_delimiter(v1.skip(m.pos), 0x2cu8);
        match d.result {
            Err(e) => err_step(e, a.pos + m.pos + d.pos, a.hit_end || m.hit_end || d.hit_end),
            Ok(_) => ok_step(false, a.pos + m.pos + d.pos, a.hit_end || m.hit_end || d.hit_end),
        }
    }
}

/// The end of a document: white space, after which the input must end.
pub open spec fn sp_finish(w: Seq<u8>) -> Step<()> {
    let j = ws_len(w);
    if j >= w.len() {
        ok_step((), j, j >= w.len())
    } else {
        err_step(ErrorView::TrailingContent(Seq::empty()), j, false)
    }
}

/// Skipping the rest of an object after the key and colon of an entry:
/// that entry's value, then the comma and the entries that follow it, or
/// the closing brace.
pub open spec fn sp_object_value_rest(w: Seq<u8>) -> Step<()> {
    let v = sp_ignore_value(w);
    match v.result {
        Err(e) => err_step(e, v.pos, v.hit_end),
        Ok(_) => {
            let a = sp_after_item(w.skip(v.pos), 0x7du8);
            match a.result {
                Err(e) => then(ok_step((), v.pos, v.hit_end), err_step(e, a.pos, a.hit_end)),
                Ok(true) => then(ok_step((), v.pos, v.hit_end), ok_step((), a.pos, a.hit_end)),
                Ok(false) => then(
                    ok_step((), v.pos, v.hit_end),
                    then(ok_step((), a.pos, a.hit_end), sp_object_entries(w.skip(v.pos).skip(a.pos))),
                ),
            }
        },
    }
}

} // verus!
