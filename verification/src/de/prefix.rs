//! What an operation reads does not depend on bytes it did not need: where
//! an operation did not look at the end of its input, it reads the same
//! from any longer input. This is what lets a decoder of a stream run an
//! operation on what has arrived so far, and run it again once more has
//! arrived where it needed more.
use vstd::prelude::*;

use crate::de::grammar::{
    Step, ByteClass, in_class, scan_end, ws_len, starts_with, sp_whitespace,
    sp_expect_delimiter, sp_maybe_delimiter, sp_parse_bool, sp_parse_unit, sp_parse_null,
    escaped, close_index, sp_buffer_string, sp_parse_string, sp_number_token, sp_parse_integer,
    sp_number_is_float, sp_value_kind, sp_begin, sp_after_key, sp_after_item, sp_finish,
    sp_next_or_eof, sp_peek, sp_next_char, sp_ignore_exactly, sp_hex_digits,
    sp_ignore_escaped_char, sp_string_body, sp_ignore_string, sp_ignore_exponent,
    sp_ignore_decimal, sp_number_rest, sp_ignore_number, hex_value, sp_ignore_value,
    sp_ignore_array, sp_array_item, sp_array_items, sp_ignore_object, sp_object_entry,
    sp_object_member, sp_object_entries, bytes_true, bytes_false, bytes_null,
};
use crate::de::lemmas::{lemma_scan_end_bounds, lemma_escaped_prefix};

verus! {

/// The outcome `s2` of an operation on a longer input is its outcome `s1`
/// on the shorter one, wherever that did not look at the end.
pub open spec fn stable<V>(s1: Step<V>, s2: Step<V>) -> bool {
    !s1.hit_end ==> s2 == s1
}

/// A run of a class that ends before the end of the input ends there on
/// any longer input.
proof fn lemma_scan_end_prefix(w: Seq<u8>, ext: Seq<u8>, i: int, c: ByteClass)
    requires
        0 <= i <= w.len(),
        scan_end(w, i, c) < w.len(),
    ensures
        scan_end(w + ext, i, c) == scan_end(w, i, c),
    decreases w.len() - i,
{
    if i < w.len() && in_class(c, w[i]) {
        assert((w + ext)[i] == w[i]);
        lemma_scan_end_prefix(w, ext, i + 1, c);
    } else {
        assert((w + ext)[i] == w[i]);
    }
}

/// Where the input holds at least `p.len()` bytes, whether it starts with
/// `p` does not depend on what follows.
proof fn lemma_starts_with_prefix(w: Seq<u8>, ext: Seq<u8>, p: Seq<u8>)
    requires
        p.len() <= w.len(),
    ensures
        starts_with(w + ext, p) == starts_with(w, p),
{
    assert((w + ext).take(p.len() as int) =~= w.take(p.len() as int));
}

/// White space that ends before the end of the input ends there on any
/// longer input, and what follows it is extended the same way.
proof fn lemma_ws_prefix(w: Seq<u8>, ext: Seq<u8>)
    requires
        ws_len(w) < w.len(),
    ensures
        ws_len(w + ext) == ws_len(w),
        (w + ext).skip(ws_len(w)) == w.skip(ws_len(w)) + ext,
{
    lemma_scan_end_bounds(w, 0, ByteClass::Whitespace);
    lemma_scan_end_prefix(w, ext, 0, ByteClass::Whitespace);
    assert((w + ext).skip(ws_len(w)) =~= w.skip(ws_len(w)) + ext);
}

/// Reading single bytes and delimiters is stable under longer inputs.
pub proof fn law_bytes_prefix(w: Seq<u8>, ext: Seq<u8>, d: u8)
    ensures
        stable(sp_next_or_eof(w), sp_next_or_eof(w + ext)),
        stable(sp_peek(w), sp_peek(w + ext)),
        stable(sp_next_char(w), sp_next_char(w + ext)),
        stable(sp_whitespace(w), sp_whitespace(w + ext)),
        stable(sp_expect_delimiter(w, d), sp_expect_delimiter(w + ext, d)),
        stable(sp_maybe_delimiter(w, d), sp_maybe_delimiter(w + ext, d)),
{
    if w.len() > 0 {
        assert((w + ext)[0] == w[0]);
    }
    lemma_scan_end_bounds(w, 0, ByteClass::Whitespace);
    if ws_len(w) < w.len() {
        lemma_ws_prefix(w, ext);
    }
}

/// Reading `true`, `false` or `null` is stable under longer inputs.
pub proof fn law_literals_prefix(w: Seq<u8>, ext: Seq<u8>)
    ensures
        stable(sp_parse_bool(w), sp_parse_bool(w + ext)),
        stable(sp_parse_unit(w), sp_parse_unit(w + ext)),
        stable(sp_parse_null(w), sp_parse_null(w + ext)),
{
    lemma_scan_end_bounds(w, 0, ByteClass::Whitespace);
    if ws_len(w) < w.len() {
        lemma_ws_prefix(w, ext);
        let v = w.skip(ws_len(w));
        assert(v.len() > 0);
        assert((v + ext)[0] == v[0]);
        if v.len() >= 4 {
            lemma_starts_with_prefix(v, ext, crate::de::grammar::bytes_true());
            lemma_starts_with_prefix(v, ext, crate::de::grammar::bytes_null());
        }
        if v.len() >= 5 {
            lemma_starts_with_prefix(v, ext, crate::de::grammar::bytes_false());
        }
    }
}


/// What follows the first `k` bytes of a longer input is what follows them
/// in the shorter one, extended.
proof fn lemma_skip_ext(w: Seq<u8>, ext: Seq<u8>, k: int)
    requires
        0 <= k <= w.len(),
    ensures
        (w + ext).skip(k) == w.skip(k) + ext,
{
    assert((w + ext).skip(k) =~= w.skip(k) + ext);
}

/// The search for a closing quote that ends before the end of a string's
/// body ends there in any longer body.
proof fn lemma_close_index_prefix(v: Seq<u8>, ext: Seq<u8>, i: int)
    requires
        0 <= i <= v.len(),
        close_index(v, i) < v.len(),
    ensures
        close_index(v + ext, i) == close_index(v, i),
    decreases v.len() - i,
{
    if i < v.len() {
        assert((v + ext)[i] == v[i]);
        assert((v + ext).take(i) =~= v.take(i));
        lemma_escaped_prefix(v + ext, v, i);
        if !(v[i] == 0x22u8 && !escaped(v, i)) {
            lemma_close_index_prefix(v, ext, i + 1);
        }
    }
}

/// Reading a string is stable under longer inputs.
pub proof fn law_string_prefix(w: Seq<u8>, ext: Seq<u8>)
    ensures
        stable(sp_buffer_string(w), sp_buffer_string(w + ext)),
        stable(sp_parse_string(w), sp_parse_string(w + ext)),
{
    if w.len() > 0 {
        assert((w + ext)[0] == w[0]);
        let v = w.drop_first();
        assert((w + ext).drop_first() =~= v + ext);
        if v.len() > 0 {
            assert((v + ext)[0] == v[0]);
        }
        crate::de::lemmas::lemma_close_index_bounds(v, 0);
        if close_index(v, 0) < v.len() {
            lemma_close_index_prefix(v, ext, 0);
            assert((v + ext).take(close_index(v, 0)) =~= v.take(close_index(v, 0)));
        }
    }
}

/// Reading a number token, and an integer, is stable under longer inputs.
pub proof fn law_number_prefix(w: Seq<u8>, ext: Seq<u8>, signed: bool, min: int, max: int)
    ensures
        stable(sp_number_token(w), sp_number_token(w + ext)),
        stable(sp_parse_integer(w, signed, min, max), sp_parse_integer(w + ext, signed, min, max)),
{
    lemma_scan_end_bounds(w, 0, ByteClass::Whitespace);
    if ws_len(w) < w.len() {
        lemma_ws_prefix(w, ext);
        let v = w.skip(ws_len(w));
        lemma_scan_end_bounds(v, 0, ByteClass::Numeric);
        if scan_end(v, 0, ByteClass::Numeric) < v.len() {
            lemma_scan_end_prefix(v, ext, 0, ByteClass::Numeric);
            assert((v + ext).take(scan_end(v, 0, ByteClass::Numeric)) =~= v.take(
                scan_end(v, 0, ByteClass::Numeric),
            ));
        }
    }
}

/// Telling a float from an integer, and the kind of the next value, is
/// stable under longer inputs.
pub proof fn law_value_kind_prefix(w: Seq<u8>, ext: Seq<u8>)
    ensures
        stable(sp_number_is_float(w), sp_number_is_float(w + ext)),
        stable(sp_value_kind(w), sp_value_kind(w + ext)),
{
    let c = ByteClass::IntegerLike;
    lemma_scan_end_bounds(w, 0, c);
    if scan_end(w, 0, c) < w.len() {
        lemma_scan_end_prefix(w, ext, 0, c);
        assert((w + ext)[scan_end(w, 0, c)] == w[scan_end(w, 0, c)]);
    }
    lemma_scan_end_bounds(w, 0, ByteClass::Whitespace);
    if ws_len(w) < w.len() {
        lemma_ws_prefix(w, ext);
        let v = w.skip(ws_len(w));
        assert((v + ext)[0] == v[0]);
        lemma_scan_end_bounds(v, 0, c);
        if scan_end(v, 0, c) < v.len() {
            lemma_scan_end_prefix(v, ext, 0, c);
            assert((v + ext)[scan_end(v, 0, c)] == v[scan_end(v, 0, c)]);
        }
        if v.len() >= 4 {
            lemma_starts_with_prefix(v, ext, crate::de::grammar::bytes_true());
            lemma_starts_with_prefix(v, ext, crate::de::grammar::bytes_null());
        }
        if v.len() >= 5 {
            lemma_starts_with_prefix(v, ext, crate::de::grammar::bytes_false());
        }
    }
}

/// Opening and closing containers, and the end of a document, are stable
/// under longer inputs.
pub proof fn law_framing_prefix(w: Seq<u8>, ext: Seq<u8>, open: u8, close: u8)
    ensures
        stable(sp_begin(w, open, close), sp_begin(w + ext, open, close)),
        stable(sp_after_key(w), sp_after_key(w + ext)),
        stable(sp_after_item(w, close), sp_after_item(w + ext, close)),
        stable(sp_finish(w), sp_finish(w + ext)),
{
    lemma_scan_end_bounds(w, 0, ByteClass::Whitespace);
    let j = ws_len(w);
    if j < w.len() {
        lemma_ws_prefix(w, ext);
        let v1 = w.skip(j);
        assert((v1 + ext)[0] == v1[0]);
        let v2 = v1.skip(1);
        lemma_skip_ext(v1, ext, 1);
        lemma_scan_end_bounds(v2, 0, ByteClass::Whitespace);
        let j2 = ws_len(v2);
        if j2 < v2.len() {
            lemma_ws_prefix(v2, ext);
            let v3 = v2.skip(j2);
            assert((v3 + ext)[0] == v3[0]);
        }
        law_bytes_prefix(v1, ext, close);
        law_bytes_prefix(v1, ext, open);
        law_bytes_prefix(v1, ext, 0x2cu8);
        law_bytes_prefix(v1, ext, 0x3au8);
        law_bytes_prefix(v2, ext, close);
    }
}


/// A step that did not look at the end of its input consumed no more than
/// the input.
pub open spec fn within<V>(s: Step<V>, w: Seq<u8>) -> bool {
    !s.hit_end ==> 0 <= s.pos <= w.len()
}

/// Consuming given bytes is stable under longer inputs.
proof fn lemma_ignore_exactly_prefix(w: Seq<u8>, ext: Seq<u8>, p: Seq<u8>)
    ensures
        stable(sp_ignore_exactly(w, p), sp_ignore_exactly(w + ext, p)),
        within(sp_ignore_exactly(w, p), w),
    decreases p.len(),
{
    reveal_with_fuel(sp_ignore_exactly, 1);
    if p.len() > 0 && w.len() > 0 {
        assert((w + ext)[0] == w[0]);
        assert((w + ext).drop_first() =~= w.drop_first() + ext);
        lemma_ignore_exactly_prefix(w.drop_first(), ext, p.drop_first());
    }
}

/// Reading hex digits is stable under longer inputs.
proof fn lemma_hex_digits_prefix(w: Seq<u8>, ext: Seq<u8>, k: nat, acc: int)
    ensures
        stable(sp_hex_digits(w, k, acc), sp_hex_digits(w + ext, k, acc)),
        within(sp_hex_digits(w, k, acc), w),
    decreases k,
{
    if k > 0 && w.len() > 0 {
        assert((w + ext)[0] == w[0]);
        assert((w + ext).drop_first() =~= w.drop_first() + ext);
        match hex_value(w[0]) {
            Some(d) => lemma_hex_digits_prefix(w.drop_first(), ext, (k - 1) as nat, acc * 16 + d),
            None => {},
        }
    }
}

/// Skipping an escape sequence is stable under longer inputs.
proof fn lemma_escaped_char_prefix(w: Seq<u8>, ext: Seq<u8>)
    ensures
        stable(sp_ignore_escaped_char(w), sp_ignore_escaped_char(w + ext)),
        within(sp_ignore_escaped_char(w), w),
{
    if w.len() > 0 {
        assert((w + ext)[0] == w[0]);
        assert((w + ext).drop_first() =~= w.drop_first() + ext);
        lemma_hex_digits_prefix(w.drop_first(), ext, 4, 0);
    }
}

/// Skipping a string's body is stable under longer inputs.
proof fn lemma_string_body_prefix(w: Seq<u8>, ext: Seq<u8>)
    ensures
        stable(sp_string_body(w), sp_string_body(w + ext)),
        within(sp_string_body(w), w),
    decreases w.len(),
{
    if w.len() > 0 {
        assert((w + ext)[0] == w[0]);
        assert((w + ext).drop_first() =~= w.drop_first() + ext);
        lemma_string_body_prefix(w.drop_first(), ext);
        lemma_escaped_char_prefix(w.drop_first(), ext);
        let e = sp_ignore_escaped_char(w.drop_first());
        if 0 <= e.pos <= w.len() - 1 {
            lemma_skip_ext(w, ext, 1 + e.pos);
            lemma_string_body_prefix(w.skip(1 + e.pos), ext);
        }
    }
}

/// Skipping a string is stable under longer inputs.
proof fn lemma_ignore_string_prefix(w: Seq<u8>, ext: Seq<u8>)
    ensures
        stable(sp_ignore_string(w), sp_ignore_string(w + ext)),
        within(sp_ignore_string(w), w),
{
    reveal(sp_ignore_string);
    if w.len() > 0 {
        assert((w + ext).drop_first() =~= w.drop_first() + ext);
        lemma_string_body_prefix(w.drop_first(), ext);
    }
}

/// Skipping an exponent is stable under longer inputs.
proof fn lemma_exponent_prefix(w: Seq<u8>, ext: Seq<u8>)
    ensures
        stable(sp_ignore_exponent(w), sp_ignore_exponent(w + ext)),
        within(sp_ignore_exponent(w), w),
{
    if w.len() > 0 {
        lemma_skip_ext(w, ext, 1);
        let v = w.skip(1);
        if v.len() > 0 {
            assert((v + ext)[0] == v[0]);
            let sign: int = if v[0] == 0x2bu8 || v[0] == 0x2du8 { 1 } else { 0 };
            lemma_skip_ext(v, ext, sign);
            let u = v.skip(sign);
            if u.len() > 0 {
                assert((u + ext)[0] == u[0]);
                let x = u.drop_first();
                assert((u + ext).drop_first() =~= x + ext);
                lemma_scan_end_bounds(x, 0, ByteClass::Digit);
                if scan_end(x, 0, ByteClass::Digit) < x.len() {
                    lemma_scan_end_prefix(x, ext, 0, ByteClass::Digit);
                }
            }
        }
    }
}

/// Skipping a fraction is stable under longer inputs.
proof fn lemma_decimal_prefix(w: Seq<u8>, ext: Seq<u8>)
    ensures
        stable(sp_ignore_decimal(w), sp_ignore_decimal(w + ext)),
        within(sp_ignore_decimal(w), w),
{
    if w.len() > 0 {
        lemma_skip_ext(w, ext, 1);
        let v = w.skip(1);
        lemma_scan_end_bounds(v, 0, ByteClass::Digit);
        let k = scan_end(v, 0, ByteClass::Digit);
        if k < v.len() {
            lemma_scan_end_prefix(v, ext, 0, ByteClass::Digit);
            lemma_skip_ext(v, ext, k);
            let u = v.skip(k);
            assert((u + ext)[0] == u[0]);
            lemma_exponent_prefix(u, ext);
        }
    }
}

/// Skipping what follows the integer part of a number is stable under
/// longer inputs.
proof fn lemma_number_rest_prefix(w: Seq<u8>, ext: Seq<u8>)
    ensures
        stable(sp_number_rest(w), sp_number_rest(w + ext)),
        within(sp_number_rest(w), w),
{
    if w.len() > 0 {
        assert((w + ext)[0] == w[0]);
        lemma_decimal_prefix(w, ext);
        lemma_exponent_prefix(w, ext);
    }
}

/// Skipping a number is stable under longer inputs.
proof fn lemma_ignore_number_prefix(w: Seq<u8>, ext: Seq<u8>)
    ensures
        stable(sp_ignore_number(w), sp_ignore_number(w + ext)),
        within(sp_ignore_number(w), w),
{
    reveal(sp_ignore_number);
    if w.len() > 0 {
        assert((w + ext)[0] == w[0]);
        lemma_skip_ext(w, ext, 1);
        let v = w.skip(1);
        if v.len() > 0 {
            assert((v + ext)[0] == v[0]);
        }
        lemma_number_rest_prefix(v, ext);
        lemma_scan_end_bounds(v, 0, ByteClass::Digit);
        let k = scan_end(v, 0, ByteClass::Digit);
        if k < v.len() {
            lemma_scan_end_prefix(v, ext, 0, ByteClass::Digit);
            lemma_skip_ext(v, ext, k);
            lemma_number_rest_prefix(v.skip(k), ext);
        }
    }
}


/// Skipping a value is stable under longer inputs.
pub proof fn law_ignore_value_prefix(w: Seq<u8>, ext: Seq<u8>)
    ensures
        stable(sp_ignore_value(w), sp_ignore_value(w + ext)),
        within(sp_ignore_value(w), w),
    decreases w.len(), 3int,
{
    reveal_with_fuel(sp_ignore_array, 1);
    reveal_with_fuel(sp_ignore_object, 1);
    lemma_scan_end_bounds(w, 0, ByteClass::Whitespace);
    let j = ws_len(w);
    if j < w.len() {
        lemma_ws_prefix(w, ext);
        let v = w.skip(j);
        assert((v + ext)[0] == v[0]);
        assert((v + ext).drop_first() =~= v.drop_first() + ext);
        lemma_ignore_string_prefix(v, ext);
        lemma_ignore_number_prefix(v.drop_first(), ext);
        lemma_ignore_number_prefix(v, ext);
        lemma_ignore_exactly_prefix(v, ext, bytes_true());
        lemma_ignore_exactly_prefix(v, ext, bytes_false());
        lemma_ignore_exactly_prefix(v, ext, bytes_null());
        lemma_ignore_array_prefix(v, ext);
        lemma_ignore_object_prefix(v, ext);
    }
}

/// Skipping an array is stable under longer inputs.
proof fn lemma_ignore_array_prefix(w: Seq<u8>, ext: Seq<u8>)
    ensures
        stable(sp_ignore_array(w), sp_ignore_array(w + ext)),
        within(sp_ignore_array(w), w),
    decreases w.len(), 2int,
{
    reveal_with_fuel(sp_ignore_array, 1);
    reveal_with_fuel(sp_array_items, 1);
    if w.len() > 0 {
        assert((w + ext).drop_first() =~= w.drop_first() + ext);
        lemma_array_items_prefix(w.drop_first(), ext);
    }
}

/// Skipping the items of an array is stable under longer inputs.
proof fn lemma_array_items_prefix(u: Seq<u8>, ext: Seq<u8>)
    ensures
        stable(sp_array_items(u), sp_array_items(u + ext)),
        within(sp_array_items(u), u),
    decreases u.len(), 6int,
{
    reveal_with_fuel(sp_array_items, 1);
    reveal_with_fuel(sp_array_item, 1);
    lemma_array_item_prefix(u, ext);
    let s = sp_array_item(u);
    if s.result == Ok::<bool, crate::de::error::ErrorView>(false) && 1 <= s.pos <= u.len() {
        lemma_skip_ext(u, ext, s.pos);
        lemma_array_items_prefix(u.skip(s.pos), ext);
    }
}

/// Skipping what comes next in an array is stable under longer inputs.
proof fn lemma_array_item_prefix(u: Seq<u8>, ext: Seq<u8>)
    ensures
        stable(sp_array_item(u), sp_array_item(u + ext)),
        within(sp_array_item(u), u),
    decreases u.len(), 5int,
{
    reveal_with_fuel(sp_array_item, 1);
    reveal_with_fuel(sp_ignore_value, 1);
    lemma_scan_end_bounds(u, 0, ByteClass::Whitespace);
    let j = ws_len(u);
    if j < u.len() {
        lemma_ws_prefix(u, ext);
        let v = u.skip(j);
        assert((v + ext)[0] == v[0]);
        law_ignore_value_prefix(v, ext);
    }
}

/// Skipping an object is stable under longer inputs.
proof fn lemma_ignore_object_prefix(w: Seq<u8>, ext: Seq<u8>)
    ensures
        stable(sp_ignore_object(w), sp_ignore_object(w + ext)),
        within(sp_ignore_object(w), w),
    decreases w.len(), 2int,
{
    reveal_with_fuel(sp_ignore_object, 1);
    reveal_with_fuel(sp_object_entries, 1);
    if w.len() > 0 {
        assert((w + ext).drop_first() =~= w.drop_first() + ext);
        lemma_object_entries_prefix(w.drop_first(), ext);
    }
}

/// Skipping the entries of an object is stable under longer inputs.
proof fn lemma_object_entries_prefix(u: Seq<u8>, ext: Seq<u8>)
    ensures
        stable(sp_object_entries(u), sp_object_entries(u + ext)),
        within(sp_object_entries(u), u),
    decreases u.len(), 6int,
{
    reveal_with_fuel(sp_object_entries, 1);
    reveal_with_fuel(sp_object_member, 1);
    lemma_object_member_prefix(u, ext);
    let s = sp_object_member(u);
    if s.result == Ok::<bool, crate::de::error::ErrorView>(false) && 1 <= s.pos <= u.len() {
        lemma_skip_ext(u, ext, s.pos);
        lemma_object_entries_prefix(u.skip(s.pos), ext);
    }
}

/// Skipping what comes next in an object is stable under longer inputs.
proof fn lemma_object_member_prefix(u: Seq<u8>, ext: Seq<u8>)
    ensures
        stable(sp_object_member(u), sp_object_member(u + ext)),
        within(sp_object_member(u), u),
    decreases u.len(), 5int,
{
    reveal_with_fuel(sp_object_member, 1);
    reveal_with_fuel(sp_object_entry, 1);
    lemma_scan_end_bounds(u, 0, ByteClass::Whitespace);
    let j = ws_len(u);
    if j < u.len() {
        lemma_ws_prefix(u, ext);
        let v = u.skip(j);
        assert((v + ext)[0] == v[0]);
        lemma_object_entry_prefix(v, ext);
    }
}

/// Skipping an entry of an object is stable under longer inputs.
proof fn lemma_object_entry_prefix(v: Seq<u8>, ext: Seq<u8>)
    ensures
        stable(sp_object_entry(v), sp_object_entry(v + ext)),
        within(sp_object_entry(v), v),
    decreases v.len(), 1int,
{
    reveal_with_fuel(sp_object_entry, 1);
    reveal_with_fuel(sp_ignore_value, 1);
    lemma_ignore_string_prefix(v, ext);
    let k = sp_ignore_string(v);
    if k.result is Ok && 1 <= k.pos <= v.len() {
        lemma_skip_ext(v, ext, k.pos);
        let u = v.skip(k.pos);
        lemma_scan_end_bounds(u, 0, ByteClass::Whitespace);
        let j2 = ws_len(u);
        if j2 < u.len() {
            lemma_ws_prefix(u, ext);
            let x = u.skip(j2);
            lemma_ignore_exactly_prefix(x, ext, seq![0x3au8]);
            let c = sp_ignore_exactly(x, seq![0x3au8]);
            if c.result is Ok && 0 <= c.pos <= x.len() {
                lemma_skip_ext(x, ext, c.pos);
                assert(x.skip(c.pos).len() < v.len());
                law_ignore_value_prefix(x.skip(c.pos), ext);
            }
        }
    }
}

} // verus!
