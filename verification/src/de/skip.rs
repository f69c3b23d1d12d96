//! What skipping consumes: a whole JSON string, and nothing after it.
use vstd::prelude::*;

use crate::de::error::ErrorView;
use crate::constants::{spec_is_digit, spec_is_numeric, spec_is_whitespace};
use crate::de::grammar::{
    ByteClass, ok_step, hex_value, simple_escape, sp_hex_digits, sp_string_body, sp_ignore_string,
    scan_end, in_class, all_digits, sp_ignore_exponent, sp_number_rest, sp_ignore_number,
    bytes_true, bytes_false, bytes_null, sp_ignore_exactly, sp_ignore_value, sp_ignore_array,
    sp_array_items, sp_array_item, sp_ignore_object, sp_object_entries, sp_object_member, sp_object_entry,
};
use crate::de::lemmas::lemma_scan_end_bounds;

verus! {

/// Whether `b` is the body of a JSON string: characters other than a
/// control byte, a quote and a backslash, and escapes, each a backslash
/// followed by one of `"\/bfnrt` or by `u` and four hex digits.
pub open spec fn json_string_body(b: Seq<u8>) -> bool
    decreases b.len(),
{
    if b.len() == 0 {
        true
    } else if b[0] != 0x5cu8 {
        b[0] >= 0x20 && b[0] != 0x22u8 && json_string_body(b.drop_first())
    } else if b.len() >= 2 && simple_escape(b[1]) {
        json_string_body(b.skip(2))
    } else if b.len() >= 6 && b[1] == 0x75u8 && hex_value(b[2]) is Some && hex_value(b[3]) is Some
        && hex_value(b[4]) is Some && hex_value(b[5]) is Some {
        json_string_body(b.skip(6))
    } else {
        false
    }
}

/// Reading `k` hex digits that are there takes exactly them; where the
/// input ends before them, the read looks past its end and fails there.
proof fn lemma_hex_digits(x: Seq<u8>, k: nat, acc: int)
    requires
        forall|i: int| 0 <= i < k && i < x.len() ==> #[trigger] hex_value(x[i]) is Some,
    ensures
        k <= x.len() ==> sp_hex_digits(x, k, acc).result is Ok && sp_hex_digits(x, k, acc).pos == k
            && !sp_hex_digits(x, k, acc).hit_end,
        k > x.len() ==> sp_hex_digits(x, k, acc).result == Err::<int, ErrorView>(ErrorView::UnexpectedEnd)
            && sp_hex_digits(x, k, acc).hit_end,
    decreases k,
{
    if k > 0 && x.len() > 0 {
        let d = hex_value(x[0])->Some_0;
        assert forall|i: int| 0 <= i < k - 1 && i < x.drop_first().len() implies #[trigger] hex_value(x.drop_first()[i]) is Some by {
            assert(hex_value(x[i + 1]) is Some);
        }
        lemma_hex_digits(x.drop_first(), (k - 1) as nat, acc * 16 + d);
    }
}

/// Skipping the body of a JSON string and the quote after it consumes
/// exactly them, whatever follows.
pub proof fn law_skip_string_body(b: Seq<u8>, rest: Seq<u8>)
    requires
        json_string_body(b),
    ensures
        sp_string_body(b + seq![0x22u8] + rest) == ok_step((), b.len() + 1int, false),
    decreases b.len(),
{
    let w = b + seq![0x22u8] + rest;
    if b.len() == 0 {
        assert(w[0] == 0x22u8);
    } else if b[0] != 0x5cu8 {
        assert(w[0] == b[0]);
        assert(w.drop_first() =~= b.drop_first() + seq![0x22u8] + rest);
        law_skip_string_body(b.drop_first(), rest);
    } else if b.len() >= 2 && simple_escape(b[1]) {
        assert(w[0] == b[0]);
        assert(w.drop_first()[0] == b[1]);
        assert(w.skip(2) =~= b.skip(2) + seq![0x22u8] + rest);
        law_skip_string_body(b.skip(2), rest);
    } else {
        let x = w.drop_first().drop_first();
        assert(w[0] == b[0]);
        assert(w.drop_first()[0] == b[1]);
        assert forall|i: int| 0 <= i < 4 && i < x.len() implies #[trigger] hex_value(x[i]) is Some by {
            assert(x[i] == b[i + 2]);
        }
        lemma_hex_digits(x, 4, 0);
        assert(w.skip(6) =~= b.skip(6) + seq![0x22u8] + rest);
        law_skip_string_body(b.skip(6), rest);
    }
}

/// Skipping a JSON string consumes exactly it, whatever follows; and where
/// the input ends inside a JSON string, the skip looks past the end and
/// fails there.
pub proof fn law_skip_string(b: Seq<u8>, rest: Seq<u8>, k: int)
    requires
        json_string_body(b),
        0 <= k <= b.len(),
    ensures
        sp_ignore_string(seq![0x22u8] + b + seq![0x22u8] + rest) == ok_step((), b.len() + 2int, false),
        sp_ignore_string(seq![0x22u8] + b.take(k)).result == Err::<(), ErrorView>(ErrorView::UnexpectedEnd),
        sp_ignore_string(seq![0x22u8] + b.take(k)).hit_end,
{
    reveal(sp_ignore_string);
    let w = seq![0x22u8] + b + seq![0x22u8] + rest;
    assert(w.drop_first() =~= b + seq![0x22u8] + rest);
    law_skip_string_body(b, rest);
    assert((seq![0x22u8] + b.take(k)).drop_first() =~= b.take(k));
    lemma_unclosed_body(b, k);
}

/// A body cut short before its closing quote leaves the skip looking past
/// its end.
proof fn lemma_unclosed_body(b: Seq<u8>, k: int)
    requires
        json_string_body(b),
        0 <= k <= b.len(),
    ensures
        sp_string_body(b.take(k)).result == Err::<(), ErrorView>(ErrorView::UnexpectedEnd),
        sp_string_body(b.take(k)).hit_end,
    decreases b.len(),
{
    let p = b.take(k);
    if k > 0 {
        assert(p[0] == b[0]);
        if b[0] != 0x5cu8 {
            assert(p.drop_first() =~= b.drop_first().take(k - 1));
            lemma_unclosed_body(b.drop_first(), k - 1);
        } else if k == 1 {
            assert(p.drop_first().len() == 0);
        } else if b.len() >= 2 && simple_escape(b[1]) {
            assert(p.drop_first()[0] == b[1]);
            assert(p.skip(2) =~= b.skip(2).take(k - 2));
            lemma_unclosed_body(b.skip(2), k - 2);
        } else {
            let x = p.drop_first().drop_first();
            assert(p.drop_first()[0] == b[1]);
            assert forall|i: int| 0 <= i < 4 && i < x.len() implies #[trigger] hex_value(x[i]) is Some by {
                assert(x[i] == b[i + 2]);
            }
            lemma_hex_digits(x, 4, 0);
            if k >= 6 {
                assert(p.skip(6) =~= b.skip(6).take(k - 6));
                lemma_unclosed_body(b.skip(6), k - 6);
            }
        }
    }
}

/// A run of class `c` from `i` that covers the rest of `a` ends there
/// when a byte outside the class follows.
proof fn lemma_run_to_end(a: Seq<u8>, r: Seq<u8>, i: int, c: ByteClass)
    requires
        0 <= i <= a.len(),
        forall|m: int| i <= m < a.len() ==> in_class(c, #[trigger] a[m]),
        r.len() > 0,
        !in_class(c, r[0]),
    ensures
        scan_end(a + r, i, c) == a.len(),
    decreases a.len() - i,
{
    if i < a.len() {
        assert((a + r)[i] == a[i]);
        lemma_run_to_end(a, r, i + 1, c);
    } else {
        assert((a + r)[i] == r[0]);
    }
}

/// A run that ends inside `a` ends at the same place whatever follows `a`.
proof fn lemma_run_inside(a: Seq<u8>, r: Seq<u8>, i: int, c: ByteClass)
    requires
        0 <= i <= a.len(),
        scan_end(a, i, c) < a.len(),
    ensures
        scan_end(a + r, i, c) == scan_end(a, i, c),
    decreases a.len() - i,
{
    assert((a + r)[i] == a[i]);
    if in_class(c, a[i]) {
        lemma_run_inside(a, r, i + 1, c);
    }
}

/// Whether `t` is an exponent: `e` or `E`, an optional sign, and one or
/// more digits, which end `t`.
pub open spec fn json_exponent(t: Seq<u8>) -> bool {
    &&& t.len() >= 2
    &&& t[0] == 0x65u8 || t[0] == 0x45u8
    &&& {
        let s: int = if t[1] == 0x2bu8 || t[1] == 0x2du8 { 2 } else { 1 };
        s < t.len() && all_digits(t.skip(s))
    }
}

/// Whether `t` may follow the integer part of a JSON number: nothing, an
/// exponent, or a point and one or more digits, with an exponent or nothing
/// after them.
pub open spec fn json_number_tail(t: Seq<u8>) -> bool {
    ||| t.len() == 0
    ||| json_exponent(t)
    ||| t[0] == 0x2eu8 && {
        let k = scan_end(t, 1, ByteClass::Digit);
        k > 1 && (k == t.len() || json_exponent(t.skip(k)))
    }
}

/// Whether `u` is a JSON number without its sign: an integer part with no
/// leading zero, then what may follow it.
pub open spec fn json_unsigned(u: Seq<u8>) -> bool {
    &&& u.len() > 0
    &&& spec_is_digit(u[0])
    &&& if u[0] == 0x30u8 {
        json_number_tail(u.drop_first())
    } else {
        json_number_tail(u.skip(scan_end(u, 1, ByteClass::Digit)))
    }
}

/// Whether `n` is a JSON number: an optional minus, then the number.
pub open spec fn json_number(n: Seq<u8>) -> bool {
    if n.len() > 0 && n[0] == 0x2du8 {
        json_unsigned(n.drop_first())
    } else {
        json_unsigned(n)
    }
}

proof fn lemma_skip_exponent(t: Seq<u8>, r: Seq<u8>)
    requires
        json_exponent(t),
        r.len() > 0,
        !spec_is_numeric(r[0]),
    ensures
        sp_ignore_exponent(t + r) == ok_step((), t.len() as int, false),
{
    let w = t + r;
    let s: int = if t[1] == 0x2bu8 || t[1] == 0x2du8 { 2 } else { 1 };
    assert(w.skip(1) =~= t.skip(1) + r);
    assert(w.skip(1).skip(s - 1) =~= t.skip(s) + r);
    let x = (t.skip(s) + r).drop_first();
    assert(x =~= t.skip(s + 1) + r);
    assert(t.skip(s)[0] == t[s]);
    assert(spec_is_digit(t.skip(s)[0]));
    assert forall|m: int| 0 <= m < t.skip(s + 1).len() implies in_class(ByteClass::Digit, #[trigger] t.skip(s + 1)[m]) by {
        assert(t.skip(s + 1)[m] == t.skip(s)[m + 1]);
    }
    lemma_run_to_end(t.skip(s + 1), r, 0, ByteClass::Digit);
}

proof fn lemma_skip_number_tail(t: Seq<u8>, r: Seq<u8>)
    requires
        json_number_tail(t),
        r.len() > 0,
        !spec_is_numeric(r[0]),
    ensures
        sp_number_rest(t + r) == ok_step((), t.len() as int, false),
{
    let w = t + r;
    if t.len() == 0 {
        assert(w =~= r);
    } else if json_exponent(t) {
        assert(w[0] == t[0]);
        lemma_skip_exponent(t, r);
    } else {
        assert(w[0] == t[0]);
        let k = scan_end(t, 1, ByteClass::Digit);
        let v = w.skip(1);
        assert(v =~= t.skip(1) + r);
        lemma_scan_end_bounds(t, 1, ByteClass::Digit);
        if k == t.len() {
            assert forall|m: int| 0 <= m < t.skip(1).len() implies in_class(ByteClass::Digit, #[trigger] t.skip(1)[m]) by {
                assert(t.skip(1)[m] == t[m + 1]);
            }
            lemma_run_to_end(t.skip(1), r, 0, ByteClass::Digit);
            assert(v.skip(k - 1) =~= r);
        } else {
            lemma_shift_run(t, 1, ByteClass::Digit);
            lemma_run_inside(t.skip(1), r, 0, ByteClass::Digit);
            assert(v.skip(k - 1) =~= t.skip(k) + r);
            assert((t.skip(k) + r)[0] == t[k]);
            lemma_skip_exponent(t.skip(k), r);
        }
    }
}

/// A run in `t` from `i` is the run in `t.skip(i)` from its start, moved.
proof fn lemma_shift_run(t: Seq<u8>, i: int, c: ByteClass)
    requires
        0 <= i <= t.len(),
    ensures
        scan_end(t.skip(i), 0, c) == scan_end(t, i, c) - i,
    decreases t.len() - i,
{
    lemma_shift_run_from(t, i, 0, c);
}

proof fn lemma_shift_run_from(t: Seq<u8>, i: int, m: int, c: ByteClass)
    requires
        0 <= i,
        0 <= m,
        i + m <= t.len(),
    ensures
        scan_end(t.skip(i), m, c) == scan_end(t, i + m, c) - i,
    decreases t.len() - i - m,
{
    if i + m < t.len() {
        assert(t.skip(i)[m] == t[i + m]);
        lemma_shift_run_from(t, i, m + 1, c);
    }
}

/// Skipping a JSON number without its sign consumes exactly it, where a
/// byte that cannot be part of a number follows.
proof fn lemma_skip_unsigned(u: Seq<u8>, r: Seq<u8>)
    requires
        json_unsigned(u),
        r.len() > 0,
        !spec_is_numeric(r[0]),
    ensures
        sp_ignore_number(u + r) == ok_step((), u.len() as int, false),
{
    reveal(sp_ignore_number);
    let w = u + r;
    assert(w[0] == u[0]);
    let v = w.skip(1);
    assert(v =~= u.drop_first() + r);
    if u[0] == 0x30u8 {
        let t = u.drop_first();
        if t.len() > 0 {
            assert(v[0] == t[0]);
        } else {
            assert(v[0] == r[0]);
        }
        lemma_skip_number_tail(t, r);
    } else {
        let k = scan_end(u, 1, ByteClass::Digit);
        lemma_scan_end_bounds(u, 1, ByteClass::Digit);
        lemma_shift_run(u, 1, ByteClass::Digit);
        if k == u.len() {
            assert forall|m: int| 0 <= m < u.drop_first().len() implies in_class(ByteClass::Digit, #[trigger] u.drop_first()[m]) by {
                assert(u.drop_first()[m] == u[m + 1]);
            }
            lemma_run_to_end(u.drop_first(), r, 0, ByteClass::Digit);
        } else {
            assert(u.skip(1) =~= u.drop_first());
            lemma_run_inside(u.drop_first(), r, 0, ByteClass::Digit);
        }
        assert(v.skip(k - 1) =~= u.skip(k) + r);
        lemma_skip_number_tail(u.skip(k), r);
    }
}

/// A JSON value, as the tree of its parts: numbers by their text, strings
/// and keys by their bodies.
pub enum Json {
    Null,
    True,
    False,
    Number(Seq<u8>),
    Str(Seq<u8>),
    Array(Seq<Json>),
    Object(Seq<Seq<u8>>, Seq<Json>),
}

/// The compact text of a JSON value.
pub open spec fn json_text(v: Json) -> Seq<u8>
    decreases v,
{
    match v {
        Json::Null => bytes_null(),
        Json::True => bytes_true(),
        Json::False => bytes_false(),
        Json::Number(n) => n,
        Json::Str(b) => seq![0x22u8] + b + seq![0x22u8],
        Json::Array(items) => seq![0x5bu8] + items_text(items) + seq![0x5du8],
        Json::Object(keys, vals) => seq![0x7bu8] + entries_text(keys, vals) + seq![0x7du8],
    }
}

/// The texts of values separated by commas.
pub open spec fn items_text(items: Seq<Json>) -> Seq<u8>
    decreases items,
{
    if items.len() == 0 {
        Seq::empty()
    } else if items.len() == 1 {
        json_text(items[0])
    } else {
        json_text(items[0]) + seq![0x2cu8] + items_text(items.subrange(1, items.len() as int))
    }
}

/// The texts of the entries of an object separated by commas: each key as
/// a string, a colon and the value.
pub open spec fn entries_text(keys: Seq<Seq<u8>>, vals: Seq<Json>) -> Seq<u8>
    decreases vals,
{
    if vals.len() == 0 || keys.len() == 0 {
        Seq::empty()
    } else {
        let e = seq![0x22u8] + keys[0] + seq![0x22u8, 0x3au8] + json_text(vals[0]);
        if vals.len() == 1 {
            e
        } else {
            e + seq![0x2cu8] + entries_text(keys.drop_first(), vals.subrange(1, vals.len() as int))
        }
    }
}

/// Whether a value is well formed: its numbers are JSON numbers, its
/// strings and keys JSON string bodies, and an object has a key for each
/// value.
pub open spec fn json_valid(v: Json) -> bool
    decreases v,
{
    match v {
        Json::Number(n) => json_number(n),
        Json::Str(b) => json_string_body(b),
        Json::Array(items) => items_valid(items),
        Json::Object(keys, vals) => keys.len() == vals.len() && (forall|i: int|
            0 <= i < keys.len() ==> json_string_body(#[trigger] keys[i])) && items_valid(vals),
        _ => true,
    }
}

pub open spec fn items_valid(items: Seq<Json>) -> bool
    decreases items,
{
    if items.len() == 0 {
        true
    } else {
        json_valid(items[0]) && items_valid(items.subrange(1, items.len() as int))
    }
}

/// Skipping the bytes `p`, which come next, consumes exactly them.
proof fn lemma_skip_exactly(p: Seq<u8>, r: Seq<u8>)
    ensures
        sp_ignore_exactly(p + r, p) == ok_step((), p.len() as int, false),
    decreases p.len(),
{
    reveal_with_fuel(sp_ignore_exactly, 1);
    if p.len() > 0 {
        assert((p + r)[0] == p[0]);
        assert((p + r).drop_first() =~= p.drop_first() + r);
        lemma_skip_exactly(p.drop_first(), r);
    }
}

/// The text of a well-formed value starts with a byte that is neither
/// white space nor a delimiter between values.
pub proof fn lemma_text_start(v: Json)
    requires
        json_valid(v),
    ensures
        json_text(v).len() > 0,
        !spec_is_whitespace(json_text(v)[0]),
        !spec_is_numeric(json_text(v)[0]) <==> !(v is Number),
        json_text(v)[0] != 0x2cu8,
        json_text(v)[0] != 0x5du8,
        json_text(v)[0] != 0x7du8,
{
    if let Json::Number(n) = v {
        if n.len() > 0 && n[0] == 0x2du8 {
        } else {
            assert(spec_is_digit(n[0]));
        }
    }
}

/// Skipping the text of a well-formed value consumes exactly it, where
/// what follows a number cannot be part of it.
proof fn lemma_skip_value(v: Json, r: Seq<u8>)
    requires
        json_valid(v),
        v is Number ==> r.len() > 0 && !spec_is_numeric(r[0]),
    ensures
        sp_ignore_value(json_text(v) + r) == ok_step((), json_text(v).len() as int, false),
    decreases v,
{
    let t = json_text(v);
    let w = t + r;
    lemma_text_start(v);
    assert(w[0] == t[0]);
    assert(w.skip(0) =~= w);
    match v {
        Json::Null => {
            lemma_skip_exactly(bytes_null(), r);
        },
        Json::True => {
            lemma_skip_exactly(bytes_true(), r);
        },
        Json::False => {
            lemma_skip_exactly(bytes_false(), r);
        },
        Json::Number(n) => {
            if n[0] == 0x2du8 {
                assert(w.drop_first() =~= n.drop_first() + r);
                lemma_skip_unsigned(n.drop_first(), r);
            } else {
                lemma_skip_unsigned(n, r);
            }
        },
        Json::Str(b) => {
            law_skip_string(b, r, 0);
            assert(w =~= seq![0x22u8] + b + seq![0x22u8] + r);
        },
        Json::Array(items) => {
            reveal_with_fuel(sp_ignore_array, 1);
            reveal_with_fuel(sp_array_items, 1);
            assert(w.drop_first() =~= items_text(items) + seq![0x5du8] + r);
            lemma_skip_items(items, r);
        },
        Json::Object(keys, vals) => {
            reveal_with_fuel(sp_ignore_object, 1);
            reveal_with_fuel(sp_object_entries, 1);
            assert(w.drop_first() =~= entries_text(keys, vals) + seq![0x7du8] + r);
            lemma_skip_entries(keys, vals, r);
        },
    }
}

/// Skipping the elements of an array after its opening bracket consumes
/// exactly them and the closing bracket.
proof fn lemma_skip_items(items: Seq<Json>, r: Seq<u8>)
    requires
        items_valid(items),
    ensures
        sp_array_items(items_text(items) + seq![0x5du8] + r) == ok_step((), items_text(items).len() + 1int, false),
    decreases items,
{
    reveal_with_fuel(sp_array_items, 1);
    reveal_with_fuel(sp_array_item, 1);
    let u = items_text(items) + seq![0x5du8] + r;
    if items.len() == 0 {
        assert(u =~= seq![0x5du8] + r);
        assert(u.skip(0) =~= u);
    } else {
        let v0 = items[0];
        let sub = items.subrange(1, items.len() as int);
        let t0 = json_text(v0);
        let rest = if items.len() == 1 {
            seq![0x5du8] + r
        } else {
            seq![0x2cu8] + items_text(sub) + seq![0x5du8] + r
        };
        assert(u =~= t0 + rest);
        lemma_text_start(v0);
        assert(u[0] == t0[0]);
        assert(u.skip(0) =~= u);
        lemma_skip_value(v0, rest);
        assert(u.skip(t0.len() as int) =~= rest);
        assert(scan_end(u, 0, ByteClass::Whitespace) == 0);
        assert(sp_array_item(u) == ok_step(false, t0.len() as int, false));
        if items.len() == 1 {
            lemma_close_items(r);
        } else {
            assert(rest.skip(0) =~= rest);
            assert(rest.skip(1) =~= items_text(sub) + seq![0x5du8] + r);
            assert(rest[0] == 0x2cu8);
            assert(scan_end(rest, 0, ByteClass::Whitespace) == 0);
            assert(sp_array_item(rest) == ok_step(false, 1, false));
            lemma_skip_items(sub, r);
            assert(sp_array_items(rest) == ok_step((), items_text(sub).len() + 2int, false));
        }
    }
}

/// The closing bracket ends the skip of an array's elements.
proof fn lemma_close_items(r: Seq<u8>)
    ensures
        sp_array_items(seq![0x5du8] + r) == ok_step((), 1, false),
{
    reveal_with_fuel(sp_array_items, 1);
    reveal_with_fuel(sp_array_item, 1);
    let u = seq![0x5du8] + r;
    assert(u.skip(0) =~= u);
    assert(u[0] == 0x5du8);
    assert(scan_end(u, 0, ByteClass::Whitespace) == 0);
    assert(sp_array_item(u) == ok_step(true, 1, false));
}

/// The closing brace ends the skip of an object's entries.
proof fn lemma_close_entries(r: Seq<u8>)
    ensures
        sp_object_entries(seq![0x7du8] + r) == ok_step((), 1, false),
{
    reveal_with_fuel(sp_object_entries, 1);
    reveal_with_fuel(sp_object_member, 1);
    let u = seq![0x7du8] + r;
    assert(u.skip(0) =~= u);
    assert(u[0] == 0x7du8);
    assert(scan_end(u, 0, ByteClass::Whitespace) == 0);
    assert(sp_object_member(u) == ok_step(true, 1, false));
}

/// Skipping the entries of an object after its opening brace consumes
/// exactly them and the closing brace.
#[verifier::rlimit(60)]
#[verifier::spinoff_prover]
proof fn lemma_skip_entries(keys: Seq<Seq<u8>>, vals: Seq<Json>, r: Seq<u8>)
    requires
        keys.len() == vals.len(),
        forall|i: int| 0 <= i < keys.len() ==> json_string_body(#[trigger] keys[i]),
        items_valid(vals),
    ensures
        sp_object_entries(entries_text(keys, vals) + seq![0x7du8] + r) == ok_step(
            (),
            entries_text(keys, vals).len() + 1int,
            false,
        ),
    decreases vals,
{
    reveal_with_fuel(sp_object_entries, 1);
    reveal_with_fuel(sp_object_member, 1);
    reveal_with_fuel(sp_object_entry, 1);
    let u = entries_text(keys, vals) + seq![0x7du8] + r;
    if vals.len() == 0 {
        assert(u =~= seq![0x7du8] + r);
        assert(u.skip(0) =~= u);
    } else {
        let k0 = keys[0];
        let v0 = vals[0];
        let sub = vals.subrange(1, vals.len() as int);
        let ksub = keys.drop_first();
        let t0 = json_text(v0);
        let rest = if vals.len() == 1 {
            seq![0x7du8] + r
        } else {
            seq![0x2cu8] + entries_text(ksub, sub) + seq![0x7du8] + r
        };
        let e = seq![0x22u8] + k0 + seq![0x22u8, 0x3au8] + t0;
        assert(u =~= e + rest);
        assert(u.skip(0) =~= u);
        assert(u[0] == 0x22u8);
        let after_key = seq![0x3au8] + t0 + rest;
        law_skip_string(k0, after_key, 0);
        assert(u =~= seq![0x22u8] + k0 + seq![0x22u8] + after_key);
        assert(u.skip(k0.len() + 2int) =~= after_key);
        assert(after_key.skip(0) =~= after_key);
        lemma_skip_exactly(seq![0x3au8], t0 + rest);
        assert(after_key =~= seq![0x3au8] + (t0 + rest));
        assert(after_key.skip(1) =~= t0 + rest);
        lemma_text_start(v0);
        lemma_skip_value(v0, rest);
        assert(u.skip(e.len() as int) =~= rest);
        assert(scan_end(u, 0, ByteClass::Whitespace) == 0);
        assert(scan_end(after_key, 0, ByteClass::Whitespace) == 0);
        assert(sp_object_entry(u) == ok_step((), e.len() as int, false));
        assert(sp_object_member(u) == ok_step(false, e.len() as int, false));
        if vals.len() == 1 {
            lemma_close_entries(r);
        } else {
            assert(rest.skip(0) =~= rest);
            assert(rest.skip(1) =~= entries_text(ksub, sub) + seq![0x7du8] + r);
            assert(rest[0] == 0x2cu8);
            assert(scan_end(rest, 0, ByteClass::Whitespace) == 0);
            assert(sp_object_member(rest) == ok_step(false, 1, false));
            assert forall|i: int| 0 <= i < ksub.len() implies json_string_body(#[trigger] ksub[i]) by {
                assert(ksub[i] == keys[i + 1]);
            }
            lemma_skip_entries(ksub, sub, r);
            assert(sp_object_entries(rest) == ok_step((), entries_text(ksub, sub).len() + 2int, false));
        }
    }
}

/// Skipping a value consumes exactly one complete JSON value and the white
/// space before it, where what follows a number cannot be part of it.
pub proof fn law_skip_value(pre: Seq<u8>, v: Json, r: Seq<u8>)
    requires
        forall|i: int| 0 <= i < pre.len() ==> spec_is_whitespace(#[trigger] pre[i]),
        json_valid(v),
        v is Number ==> r.len() > 0 && !spec_is_numeric(r[0]),
    ensures
        sp_ignore_value(pre + json_text(v) + r) == ok_step((), (pre.len() + json_text(v).len()) as int, false),
{
    let t = json_text(v);
    let w = pre + t + r;
    lemma_text_start(v);
    lemma_ws_run(pre, t + r, 0);
    assert(w =~= pre + (t + r));
    assert(w.skip(pre.len() as int) =~= t + r);
    lemma_skip_value(v, r);
    let s = sp_ignore_value(t + r);
    let x = t + r;
    assert(x.skip(0) =~= x);
}

proof fn lemma_ws_run(pre: Seq<u8>, x: Seq<u8>, i: int)
    requires
        0 <= i <= pre.len(),
        forall|m: int| 0 <= m < pre.len() ==> spec_is_whitespace(#[trigger] pre[m]),
        x.len() > 0,
        !spec_is_whitespace(x[0]),
    ensures
        scan_end(pre + x, i, ByteClass::Whitespace) == pre.len(),
    decreases pre.len() - i,
{
    if i < pre.len() {
        assert((pre + x)[i] == pre[i]);
        lemma_ws_run(pre, x, i + 1);
    } else {
        assert((pre + x)[i] == x[0]);
    }
}

} // verus!
