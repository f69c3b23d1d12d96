//! What holds of the decoder and the encoder together: what the encoder
//! writes, the decoder reads back.
use vstd::prelude::*;

use crate::constants::{QUOTE, ESCAPE, COLON, COMMA, spec_is_numeric, spec_is_whitespace, spec_is_digit};
use crate::de::grammar::{
    ByteClass, in_class, scan_end, ws_len, ok_step, escaped, close_index, unescape, digits_value,
    all_digits, integer_value, starts_with, bytes_true, bytes_false, bytes_null, sp_buffer_string,
    sp_parse_string, sp_parse_integer, sp_parse_bool, sp_parse_unit, sp_begin, sp_after_key, sp_after_item,
    sp_string_body, sp_ignore_string, sp_ignore_escaped_char, sp_value_kind, ValueKind, float_marker,
};
use crate::de::lemmas::lemma_scan_end_bounds;
use crate::de::lemmas::lemma_escaped_prefix;
use crate::de::error::ErrorView;
use crate::en::{escape_byte, escaped_text, quoted, decimal, decimal_digits, bool_text, null_text};
use vstd::utf8::{encode_utf8, encode_utf8_valid_utf8, encode_utf8_decode_utf8};

verus! {

/// Escaped text leaves no backslash pending at its end and holds no quote
/// that is not escaped.
proof fn lemma_escaped_text(s: Seq<u8>)
    ensures
        !escaped(escaped_text(s), escaped_text(s).len() as int),
        forall|i: int| 0 <= i < escaped_text(s).len() ==> !(#[trigger] escaped_text(s)[i] == QUOTE && !escaped(escaped_text(s), i)),
    decreases s.len(),
{
    if s.len() > 0 {
        let p = s.drop_last();
        let b = s.last();
        let ep = escaped_text(p);
        let e = escaped_text(s);
        let n = ep.len() as int;
        lemma_escaped_text(p);
        assert(e == ep + escape_byte(b));
        assert forall|i: int| 0 <= i <= n implies escaped(e, i) == escaped(ep, i) by {
            assert(e.take(i) =~= ep.take(i));
            lemma_escaped_prefix(e, ep, i);
        }
        if b == QUOTE || b == ESCAPE {
            assert(e == ep + seq![ESCAPE, b]);
            assert(escaped(e, n + 1));
            assert(!escaped(e, n + 2));
            assert forall|i: int| 0 <= i < e.len() implies !(#[trigger] e[i] == QUOTE && !escaped(e, i)) by {
                if i < n {
                    assert(e[i] == ep[i]);
                }
            }
        } else {
            assert(e == ep.push(b));
            assert forall|i: int| 0 <= i < e.len() implies !(#[trigger] e[i] == QUOTE && !escaped(e, i)) by {
                if i < n {
                    assert(e[i] == ep[i]);
                }
            }
        }
    } else {
        assert(escaped_text(s) =~= Seq::<u8>::empty());
    }
}

/// Escaped text stands for the text it escapes.
proof fn lemma_unescape_escaped(s: Seq<u8>)
    ensures
        unescape(escaped_text(s)) == Ok::<Seq<u8>, ErrorView>(s),
    decreases s.len(),
{
    if s.len() == 0 {
        assert(escaped_text(s) =~= Seq::<u8>::empty());
        assert(s =~= Seq::<u8>::empty());
    } else {
        let c = s[0];
        let t = s.drop_first();
        assert(seq![c] + t =~= s);
        lemma_escaped_text_concat(seq![c], t);
        assert(seq![c].drop_last() =~= Seq::<u8>::empty());
        assert(escaped_text(Seq::<u8>::empty()) =~= Seq::<u8>::empty());
        assert(seq![c].last() == c);
        assert(escaped_text(seq![c]) =~= escape_byte(c));
        lemma_unescape_escaped(t);
        let e = escaped_text(s);
        assert(e =~= escape_byte(c) + escaped_text(t));
        if c == QUOTE || c == ESCAPE {
            assert(e.skip(2) =~= escaped_text(t));
            assert(e[1] == c);
        } else {
            assert(e.drop_first() =~= escaped_text(t));
        }
        assert(seq![c] + t =~= s);
    }
}

/// In escaped text followed by a quote, the search for the closing quote
/// from anywhere in the text ends at that quote.
proof fn lemma_close_after_escaped(e: Seq<u8>, x: Seq<u8>, i: int)
    requires
        x.len() > e.len(),
        x.take(e.len() as int) == e,
        x[e.len() as int] == QUOTE,
        !escaped(e, e.len() as int),
        forall|k: int| 0 <= k < e.len() ==> !(#[trigger] e[k] == QUOTE && !escaped(e, k)),
        0 <= i <= e.len(),
    ensures
        close_index(x, i) == e.len(),
    decreases e.len() - i,
{
    assert(x.take(i) =~= e.take(i));
    lemma_escaped_prefix(x, e, i);
    if i < e.len() {
        assert(x[i] == x.take(e.len() as int)[i]);
        lemma_close_after_escaped(e, x, i + 1);
    }
}

/// A string that the encoder wrote reads back as the same bytes, whatever
/// follows it.
pub proof fn law_string_bytes_roundtrip(s: Seq<u8>, rest: Seq<u8>)
    ensures
        sp_buffer_string(quoted(s) + rest) == ok_step(s, quoted(s).len() as int, false),
{
    let e = escaped_text(s);
    let w = quoted(s) + rest;
    let x = w.drop_first();
    lemma_escaped_text(s);
    lemma_unescape_escaped(s);
    assert(x =~= e + seq![QUOTE] + rest);
    assert(x.take(e.len() as int) =~= e);
    lemma_close_after_escaped(e, x, 0);
}

/// A string that the encoder wrote reads back as the same text, whatever
/// follows it.
pub proof fn law_string_roundtrip(s: Seq<char>, rest: Seq<u8>)
    ensures
        sp_parse_string(quoted(encode_utf8(s)) + rest) == ok_step(s, quoted(encode_utf8(s)).len() as int, false),
{
    law_string_bytes_roundtrip(encode_utf8(s), rest);
    encode_utf8_valid_utf8(s);
    encode_utf8_decode_utf8(s);
}

/// The decimal digits of `n` are one or more digits that spell `n`.
pub(crate) proof fn lemma_decimal_digits(n: nat)
    ensures
        decimal_digits(n).len() >= 1,
        all_digits(decimal_digits(n)),
        digits_value(decimal_digits(n)) == n,
    decreases n,
{
    if n >= 10 {
        lemma_decimal_digits(n / 10);
        let d = decimal_digits(n);
        assert(d.drop_last() =~= decimal_digits(n / 10));
        assert(n == (n / 10) * 10 + n % 10) by (nonlinear_arith);
        assert(d.last() == (0x30 + n % 10) as u8);
        assert((d.last() - 0x30u8) as nat == n % 10);
        assert(digits_value(d) == digits_value(d.drop_last()) * 10 + (d.last() - 0x30u8) as nat);
    } else {
        let d = decimal_digits(n);
        assert(d.drop_last() =~= Seq::<u8>::empty());
        assert(digits_value(d) == digits_value(d.drop_last()) * 10 + (d.last() - 0x30u8) as nat);
    }
}

/// A run of bytes of one class that stops before a byte outside it, or at
/// the end, is where a scan of that class ends.
proof fn lemma_scan_end_run(w: Seq<u8>, i: int, k: int, c: ByteClass)
    requires
        0 <= i <= k <= w.len(),
        forall|m: int| i <= m < k ==> in_class(c, #[trigger] w[m]),
        k == w.len() || !in_class(c, w[k]),
    ensures
        scan_end(w, i, c) == k,
    decreases k - i,
{
    if i < k {
        lemma_scan_end_run(w, i + 1, k, c);
    }
}

/// An integer that the encoder wrote reads back as the same integer where
/// it is in the range asked for and no other number byte follows it; a
/// negative one only where a sign is read.
pub proof fn law_integer_roundtrip(x: int, rest: Seq<u8>, signed: bool, min: int, max: int)
    requires
        min <= x <= max,
        signed || x >= 0,
        rest.len() == 0 || !spec_is_numeric(rest[0]),
    ensures
        sp_parse_integer(decimal(x) + rest, signed, min, max) == ok_step(x, decimal(x).len() as int, rest.len() == 0),
{
    let m: nat = if x < 0 { (-x) as nat } else { x as nat };
    lemma_decimal_digits(m);
    let d = decimal(x);
    let w = d + rest;
    assert(w.take(d.len() as int) =~= d);
    assert(!spec_is_whitespace(w[0])) by {
        if x < 0 {
            assert(w[0] == 0x2du8);
        } else {
            assert(spec_is_digit(decimal_digits(m)[0]));
            assert(w[0] == decimal_digits(m)[0]);
        }
    }
    lemma_scan_end_run(w, 0, 0, ByteClass::Whitespace);
    assert(w.skip(0) =~= w);
    assert forall|k: int| 0 <= k < d.len() implies in_class(ByteClass::Numeric, #[trigger] w[k]) by {
        if x < 0 {
            if k > 0 {
                assert(w[k] == decimal_digits(m)[k - 1]);
                assert(spec_is_digit(decimal_digits(m)[k - 1]));
            }
        } else {
            assert(spec_is_digit(decimal_digits(m)[k]));
        }
    }
    if rest.len() > 0 {
        assert(w[d.len() as int] == rest[0]);
    }
    lemma_scan_end_run(w, 0, d.len() as int, ByteClass::Numeric);
    if x < 0 {
        assert(d.drop_first() =~= decimal_digits(m));
    } else {
        assert(spec_is_digit(d[0]));
    }
    assert(integer_value(d, signed) == Some(x));
}

/// A boolean that the encoder wrote reads back as the same boolean.
pub proof fn law_bool_roundtrip(b: bool, rest: Seq<u8>)
    ensures
        sp_parse_bool(bool_text(b) + rest) == ok_step(b, bool_text(b).len() as int, false),
{
    let w = bool_text(b) + rest;
    assert(!spec_is_whitespace(w[0]));
    lemma_scan_end_run(w, 0, 0, ByteClass::Whitespace);
    assert(w.skip(0) =~= w);
    if b {
        assert(w.take(4) =~= bytes_true());
    } else {
        assert(w.take(5) =~= bytes_false());
        assert(!starts_with(w, bytes_true())) by {
            assert(w.take(4)[0] != bytes_true()[0]);
        }
    }
}

/// A `null` that the encoder wrote reads back as the unit value.
pub proof fn law_null_roundtrip(rest: Seq<u8>)
    ensures
        sp_parse_unit(null_text() + rest) == ok_step((), 4, false),
{
    let w = null_text() + rest;
    assert(!spec_is_whitespace(w[0]));
    lemma_scan_end_run(w, 0, 0, ByteClass::Whitespace);
    assert(w.skip(0) =~= w);
    assert(w.take(4) =~= bytes_null());
}


/// A read that meets a token of another kind than it reads fails having
/// consumed no more than the white space before the token, so that a read
/// of another kind can be tried there.
pub proof fn law_mismatch_consumes_only_whitespace(
    w: Seq<u8>,
    signed: bool,
    min: int,
    max: int,
    open: u8,
    close: u8,
)
    ensures
        ({
            let j = ws_len(w);
            let v = w.skip(j);
            &&& v.len() > 0 && v[0] != QUOTE ==> sp_buffer_string(v).result is Err && sp_buffer_string(v).pos == 0
            &&& sp_parse_integer(w, signed, min, max).result is Err ==> sp_parse_integer(w, signed, min, max).pos == j
            &&& sp_parse_bool(w).result is Err ==> sp_parse_bool(w).pos == j
            &&& sp_parse_unit(w).result is Err ==> sp_parse_unit(w).pos == j
            &&& v.len() > 0 && v[0] != open ==> sp_begin(w, open, close).result is Err && sp_begin(w, open, close).pos == j
        }),
{
    lemma_scan_end_bounds(w, 0, ByteClass::Whitespace);
}


/// The delimiters that the encoder puts around and between elements read
/// back as the framing they stand for, where no white space follows them:
/// an opening delimiter opens a container (already done where the closing
/// one follows at once), a colon ends a key, a comma leads to the next
/// element and the closing delimiter ends the container.
pub proof fn law_framing_roundtrip(open: u8, close: u8, x: Seq<u8>)
    requires
        !spec_is_whitespace(open),
        !spec_is_whitespace(close),
        open != close,
        close != COMMA,
        x.len() > 0,
        !spec_is_whitespace(x[0]),
    ensures
        sp_begin(seq![open, close] + x, open, close) == ok_step(true, 2, false),
        x[0] != close ==> sp_begin(seq![open] + x, open, close) == ok_step(false, 1, false),
        sp_after_key(seq![COLON] + x) == ok_step((), 1, false),
        sp_after_item(seq![COMMA] + x, close) == ok_step(false, 1, false),
        sp_after_item(seq![close] + x, close) == ok_step(true, 1, false),
{
    let w1 = seq![open, close] + x;
    lemma_scan_end_run(w1, 0, 0, ByteClass::Whitespace);
    assert(w1.skip(0) =~= w1);
    assert(w1.skip(1) =~= seq![close] + x);
    lemma_scan_end_run(w1.skip(1), 0, 0, ByteClass::Whitespace);
    assert(w1.skip(1).skip(0) =~= w1.skip(1));
    let w2 = seq![open] + x;
    lemma_scan_end_run(w2, 0, 0, ByteClass::Whitespace);
    assert(w2.skip(0) =~= w2);
    assert(w2.skip(1) =~= x);
    lemma_scan_end_run(x, 0, 0, ByteClass::Whitespace);
    assert(x.skip(0) =~= x);
    let w3 = seq![COLON] + x;
    lemma_scan_end_run(w3, 0, 0, ByteClass::Whitespace);
    assert(w3.skip(0) =~= w3);
    assert(w3.skip(1) =~= x);
    let w4 = seq![COMMA] + x;
    lemma_scan_end_run(w4, 0, 0, ByteClass::Whitespace);
    assert(w4.skip(0) =~= w4);
    assert(w4.skip(0).skip(0) =~= w4);
    let w5 = seq![close] + x;
    lemma_scan_end_run(w5, 0, 0, ByteClass::Whitespace);
    assert(w5.skip(0) =~= w5);
}


/// Escaping text piecewise escapes the whole.
proof fn lemma_escaped_text_concat(a: Seq<u8>, b: Seq<u8>)
    ensures
        escaped_text(a + b) == escaped_text(a) + escaped_text(b),
    decreases b.len(),
{
    if b.len() == 0 {
        assert(a + b =~= a);
        assert(escaped_text(a) + escaped_text(b) =~= escaped_text(a));
    } else {
        lemma_escaped_text_concat(a, b.drop_last());
        assert((a + b).drop_last() =~= a + b.drop_last());
        assert((a + b).last() == b.last());
        assert(escaped_text(a + b) =~= escaped_text(a) + escaped_text(b));
    }
}

/// The skipper of a string's body passes over escaped text with no control
/// characters and stops just after the quote that follows it.
proof fn lemma_string_body_escaped(s: Seq<u8>, rest: Seq<u8>)
    requires
        forall|i: int| 0 <= i < s.len() ==> #[trigger] s[i] >= 0x20,
    ensures
        sp_string_body(escaped_text(s) + seq![QUOTE] + rest) == ok_step((), escaped_text(s).len() + 1int, false),
    decreases s.len(),
{
    if s.len() == 0 {
        assert(escaped_text(s) + seq![QUOTE] + rest =~= seq![QUOTE] + rest);
    } else {
        let c = s[0];
        let t = s.drop_first();
        assert(seq![c] + t =~= s);
        lemma_escaped_text_concat(seq![c], t);
        assert(seq![c].drop_last() =~= Seq::<u8>::empty());
        assert(escaped_text(Seq::<u8>::empty()) =~= Seq::<u8>::empty());
        assert(seq![c].last() == c);
        assert(escaped_text(seq![c]) =~= escape_byte(c));
        assert forall|i: int| 0 <= i < t.len() implies #[trigger] t[i] >= 0x20 by {
            assert(t[i] == s[i + 1]);
        }
        lemma_string_body_escaped(t, rest);
        let y = escaped_text(t) + seq![QUOTE] + rest;
        let w = escaped_text(s) + seq![QUOTE] + rest;
        assert(w =~= escape_byte(c) + y);
        if c == QUOTE || c == ESCAPE {
            assert(w.drop_first() =~= seq![c] + y);
            assert(sp_ignore_escaped_char(w.drop_first()) == ok_step((), 1, false));
            assert(w.skip(2) =~= y);
        } else {
            assert(w.drop_first() =~= y);
        }
    }
}

/// Skipping a string that the encoder wrote, with no control characters in
/// its text, consumes exactly that string.
pub proof fn law_skip_encoded_string(s: Seq<u8>, rest: Seq<u8>)
    requires
        forall|i: int| 0 <= i < s.len() ==> #[trigger] s[i] >= 0x20,
    ensures
        sp_ignore_string(quoted(s) + rest) == ok_step((), quoted(s).len() as int, false),
{
    reveal(sp_ignore_string);
    lemma_string_body_escaped(s, rest);
    let w = quoted(s) + rest;
    assert(w.drop_first() =~= escaped_text(s) + seq![QUOTE] + rest);
}

/// Whether `b` may occur in a number token: a digit, a sign, `e`, `E` or `.`.
pub open spec fn number_byte(b: u8) -> bool {
    (0x30 <= b && b <= 0x39) || b == 0x2d || b == 0x2b || b == 0x65 || b == 0x45 || b == 0x2e
}

/// Whether `b` makes a number a float: `.`, `e` or `E`.
pub open spec fn float_byte(b: u8) -> bool {
    b == 0x2e || b == 0x65 || b == 0x45
}

/// The kind of a number is told by its token alone: where the first byte
/// after white space is a digit or a minus sign, the next value is a number
/// and nothing is consumed, and it is a float exactly when a `.`, `e` or `E`
/// occurs in it before any byte that cannot be part of a number. A minus
/// sign in front changes nothing of this: `-1.5` is a float as `1.5` is.
pub proof fn law_number_kind(pre: Seq<u8>, v: Seq<u8>)
    requires
        forall|i: int| 0 <= i < pre.len() ==> spec_is_whitespace(#[trigger] pre[i]),
        v.len() > 0,
        (0x30 <= v[0] && v[0] <= 0x39) || v[0] == 0x2d,
    ensures
        sp_value_kind(pre + v).result is Ok,
        sp_value_kind(pre + v).pos == pre.len(),
        sp_value_kind(pre + v).result == Ok::<ValueKind, ErrorView>(ValueKind::Float) <==> exists|i: int|
            0 <= i < v.len() && float_byte(#[trigger] v[i]) && forall|k: int| 0 <= k < i ==> number_byte(#[trigger] v[k]),
        sp_value_kind(pre + v).result != Ok::<ValueKind, ErrorView>(ValueKind::Float) ==> sp_value_kind(
            pre + v,
        ).result == Ok::<ValueKind, ErrorView>(ValueKind::Integer),
{
    let w = pre + v;
    lemma_ws_prefix_run(pre, v, 0);
    assert(w.skip(pre.len() as int) =~= v);
    let c = ByteClass::IntegerLike;
    lemma_scan_end_bounds(v, 0, c);
    let j = scan_end(v, 0, c);
    let fl = j < v.len() && float_marker(v[j]);
    if fl {
        assert forall|k: int| 0 <= k < j implies number_byte(#[trigger] v[k]) by {
            assert(in_class(c, v[k]));
        }
        assert(float_byte(v[j]));
    } else {
        assert forall|i: int| 0 <= i < v.len() && float_byte(#[trigger] v[i]) implies !(forall|k: int|
            0 <= k < i ==> number_byte(#[trigger] v[k])) by {
            if forall|k: int| 0 <= k < i ==> number_byte(#[trigger] v[k]) {
                if i < j {
                    assert(in_class(c, v[i]));
                } else if i == j {
                } else {
                    assert(number_byte(v[j]));
                    assert(!in_class(c, v[j]));
                }
            }
        }
    }
}

/// White space before a byte that is not white space is skipped whole.
proof fn lemma_ws_prefix_run(pre: Seq<u8>, v: Seq<u8>, i: int)
    requires
        0 <= i <= pre.len(),
        forall|m: int| 0 <= m < pre.len() ==> spec_is_whitespace(#[trigger] pre[m]),
        v.len() > 0,
        !spec_is_whitespace(v[0]),
    ensures
        scan_end(pre + v, i, ByteClass::Whitespace) == pre.len(),
    decreases pre.len() - i,
{
    if i < pre.len() {
        assert((pre + v)[i] == pre[i]);
        lemma_ws_prefix_run(pre, v, i + 1);
    } else {
        assert((pre + v)[i] == v[0]);
    }
}

/// A minus sign does not change the kind of a number.
pub proof fn law_sign_keeps_number_kind(pre: Seq<u8>, u: Seq<u8>)
    requires
        forall|i: int| 0 <= i < pre.len() ==> spec_is_whitespace(#[trigger] pre[i]),
        u.len() > 0,
        0x30 <= u[0] && u[0] <= 0x39,
    ensures
        sp_value_kind(pre + (seq![0x2du8] + u)).result == sp_value_kind(pre + u).result,
{
    let v = seq![0x2du8] + u;
    law_number_kind(pre, v);
    law_number_kind(pre, u);
    assert forall|i: int| 0 <= i < u.len() implies #[trigger] u[i] == v[i + 1] by {}
    if exists|i: int| 0 <= i < u.len() && float_byte(#[trigger] u[i]) && forall|k: int| 0 <= k < i ==> number_byte(#[trigger] u[k]) {
        let i = choose|i: int| 0 <= i < u.len() && float_byte(#[trigger] u[i]) && forall|k: int| 0 <= k < i ==> number_byte(#[trigger] u[k]);
        assert(float_byte(v[i + 1]));
        assert forall|k: int| 0 <= k < i + 1 implies number_byte(#[trigger] v[k]) by {
            if k > 0 {
                assert(v[k] == u[k - 1]);
            }
        }
    }
    if exists|i: int| 0 <= i < v.len() && float_byte(#[trigger] v[i]) && forall|k: int| 0 <= k < i ==> number_byte(#[trigger] v[k]) {
        let i = choose|i: int| 0 <= i < v.len() && float_byte(#[trigger] v[i]) && forall|k: int| 0 <= k < i ==> number_byte(#[trigger] v[k]);
        assert(i > 0);
        assert(float_byte(u[i - 1]));
        assert forall|k: int| 0 <= k < i - 1 implies number_byte(#[trigger] u[k]) by {
            assert(number_byte(v[k + 1]));
        }
    }
}

/// The kind of the next value is told by what starts it after white space,
/// and telling it consumes only that white space: a quote starts a string,
/// a bracket an array, a brace an object, `true` and `false` a boolean and
/// `null` a null; no byte at all is the end of the input, and a byte that
/// starts none of these and no number is no value.
pub proof fn law_value_kind_by_start(pre: Seq<u8>, v: Seq<u8>)
    requires
        forall|i: int| 0 <= i < pre.len() ==> spec_is_whitespace(#[trigger] pre[i]),
        v.len() == 0 || !spec_is_whitespace(v[0]),
    ensures
        sp_value_kind(pre + v).pos == pre.len(),
        v.len() == 0 ==> sp_value_kind(pre + v).result == Err::<ValueKind, ErrorView>(ErrorView::UnexpectedEnd),
        v.len() > 0 && v[0] == 0x22 ==> sp_value_kind(pre + v).result == Ok::<ValueKind, ErrorView>(ValueKind::String),
        v.len() > 0 && v[0] == 0x5b ==> sp_value_kind(pre + v).result == Ok::<ValueKind, ErrorView>(ValueKind::Array),
        v.len() > 0 && v[0] == 0x7b ==> sp_value_kind(pre + v).result == Ok::<ValueKind, ErrorView>(ValueKind::Object),
        v.len() >= 4 && v.take(4) == seq![0x74u8, 0x72u8, 0x75u8, 0x65u8] ==> sp_value_kind(pre + v).result == Ok::<
            ValueKind,
            ErrorView,
        >(ValueKind::Bool),
        v.len() >= 5 && v.take(5) == seq![0x66u8, 0x61u8, 0x6cu8, 0x73u8, 0x65u8] ==> sp_value_kind(pre + v).result
            == Ok::<ValueKind, ErrorView>(ValueKind::Bool),
        v.len() >= 4 && v.take(4) == seq![0x6eu8, 0x75u8, 0x6cu8, 0x6cu8] ==> sp_value_kind(pre + v).result == Ok::<
            ValueKind,
            ErrorView,
        >(ValueKind::Null),
        v.len() > 0 && !(number_byte(v[0]) || v[0] == 0x22 || v[0] == 0x5b || v[0] == 0x7b || v[0] == 0x74
            || v[0] == 0x66 || v[0] == 0x6e) ==> sp_value_kind(pre + v).result is Err,
{
    let w = pre + v;
    if v.len() == 0 {
        assert(w =~= pre);
        lemma_scan_end_bounds(w, 0, ByteClass::Whitespace);
        lemma_ws_all(pre, 0);
    } else {
        lemma_ws_prefix_run(pre, v, 0);
    }
    assert(w.skip(pre.len() as int) =~= v);
    if v.len() >= 4 {
        assert(v.take(4)[0] == v[0]);
    }
    if v.len() >= 5 {
        assert(v.take(5)[0] == v[0]);
    }
}

/// White space alone is skipped whole.
proof fn lemma_ws_all(pre: Seq<u8>, i: int)
    requires
        0 <= i <= pre.len(),
        forall|m: int| 0 <= m < pre.len() ==> spec_is_whitespace(#[trigger] pre[m]),
    ensures
        scan_end(pre, i, ByteClass::Whitespace) == pre.len(),
    decreases pre.len() - i,
{
    if i < pre.len() {
        lemma_ws_all(pre, i + 1);
    }
}

} // verus!
