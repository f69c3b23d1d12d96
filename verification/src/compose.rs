//! Lists and maps read back: what the encoder frames, a reader of lists
//! and maps built from the decoder's framing steps and a reader of the
//! elements reads back as the elements.
use vstd::prelude::*;

use crate::constants::{COMMA, COLON, QUOTE, MAP_BEGIN, MAP_END, LIST_BEGIN, LIST_END, spec_is_whitespace, spec_is_digit};
use crate::de::error::ErrorView;
use crate::de::grammar::{
    Step, ByteClass, ok_step, err_step, then, scan_end, sp_begin, sp_after_item, sp_after_key,
    sp_parse_string, sp_parse_integer,
};
use crate::en::stream::{joined, comma_led};
use crate::en::{quoted, decimal, decimal_digits, Piece, list_pieces, item_pieces, map_pieces, entry_pieces};
use crate::laws::{law_string_roundtrip, law_framing_roundtrip, law_integer_roundtrip, lemma_decimal_digits};
use vstd::utf8::encode_utf8;

verus! {

/// Reading the elements of a list after its opening, each by `read` and
/// followed by a comma or the closing delimiter `close`, as a reader does
/// with the element reads and `after_item`. A read that consumes nothing
/// makes no progress and ends the list as cut short.
pub open spec fn sp_read_items<V>(w: Seq<u8>, close: u8, read: spec_fn(Seq<u8>) -> Step<V>) -> Step<Seq<V>>
    decreases w.len(),
{
    let e = read(w);
    match e.result {
        Err(x) => err_step(x, e.pos, e.hit_end),
        Ok(v) => if 0 < e.pos <= w.len() {
            let a = sp_after_item(w.skip(e.pos), close);
            let n = e.pos + a.pos;
            let h = e.hit_end || a.hit_end;
            match a.result {
                Err(x) => err_step(x, n, h),
                Ok(true) => ok_step(seq![v], n, h),
                Ok(false) => if 0 <= a.pos && n <= w.len() {
                    let r = sp_read_items(w.skip(n), close, read);
                    match r.result {
                        Ok(vs) => ok_step(seq![v] + vs, n + r.pos, h || r.hit_end),
                        Err(x) => err_step(x, n + r.pos, h || r.hit_end),
                    }
                } else {
                    err_step(ErrorView::UnexpectedEnd, n, h)
                },
            }
        } else {
            err_step(ErrorView::UnexpectedEnd, e.pos, e.hit_end)
        },
    }
}

/// Reading a list (or a map) delimited by `open` and `close` whose
/// elements are read by `read`: `begin`, then the elements.
pub open spec fn sp_read_list<V>(w: Seq<u8>, open: u8, close: u8, read: spec_fn(Seq<u8>) -> Step<V>) -> Step<Seq<V>> {
    let b = sp_begin(w, open, close);
    match b.result {
        Err(x) => err_step(x, b.pos, b.hit_end),
        Ok(true) => ok_step(Seq::empty(), b.pos, b.hit_end),
        Ok(false) => if 0 <= b.pos <= w.len() {
            then(ok_step((), b.pos, b.hit_end), sp_read_items(w.skip(b.pos), close, read))
        } else {
            err_step(ErrorView::UnexpectedEnd, b.pos, b.hit_end)
        },
    }
}

/// White space is not found at a byte that is not white space.
proof fn lemma_no_ws(w: Seq<u8>)
    requires
        w.len() > 0,
        !spec_is_whitespace(w[0]),
    ensures
        scan_end(w, 0, ByteClass::Whitespace) == 0,
        w.skip(0) == w,
{
    assert(w.skip(0) =~= w);
}

/// The encodings `items` separated by commas, each read back by `read` as
/// the value at its place in `vals` wherever a comma or `close` follows,
/// read back as `vals`.
proof fn lemma_read_items<V>(close: u8, items: Seq<Seq<u8>>, vals: Seq<V>, read: spec_fn(Seq<u8>) -> Step<V>, rest: Seq<u8>)
    requires
        items.len() > 0,
        items.len() == vals.len(),
        !spec_is_whitespace(close),
        close != COMMA,
        forall|i: int, x: Seq<u8>|
            0 <= i < items.len() && x.len() > 0 && (x[0] == COMMA || x[0] == close) ==> #[trigger] read(items[i] + x)
                == ok_step(vals[i], items[i].len() as int, false),
        forall|i: int| 0 <= i < items.len() ==> (#[trigger] items[i]).len() > 0,
    ensures
        sp_read_items(joined(items) + seq![close] + rest, close, read) == ok_step(vals, joined(items).len() + 1int, false),
    decreases items.len(),
{
    let t = items.drop_first();
    let i0 = items[0];
    let w = joined(items) + seq![close] + rest;
    let x = comma_led(t) + seq![close] + rest;
    assert(w =~= i0 + x);
    if t.len() == 0 {
        assert(x =~= seq![close] + rest);
        assert(read(i0 + x) == ok_step(vals[0], i0.len() as int, false));
        assert(w.skip(i0.len() as int) =~= x);
        lemma_no_ws(x);
        assert(x.skip(0).skip(1) =~= rest);
        assert(seq![vals[0]] =~= vals);
    } else {
        let y = joined(t) + seq![close] + rest;
        assert(comma_led(t) =~= seq![COMMA] + joined(t));
        assert(x =~= seq![COMMA] + y);
        assert(read(i0 + x) == ok_step(vals[0], i0.len() as int, false));
        assert(w.skip(i0.len() as int) =~= x);
        lemma_no_ws(x);
        assert(x.skip(0) =~= x);
        assert(x.skip(0).skip(0) =~= x);
        assert(sp_after_item(x, close) == ok_step(false, 1, false));
        assert(w.skip(i0.len() + 1int) =~= y);
        let tv = vals.drop_first();
        assert forall|i: int, z: Seq<u8>|
            0 <= i < t.len() && z.len() > 0 && (z[0] == COMMA || z[0] == close) implies #[trigger] read(t[i] + z)
                == ok_step(tv[i], t[i].len() as int, false) by {
            assert(t[i] == items[i + 1]);
            assert(read(items[i + 1] + z) == ok_step(vals[i + 1], items[i + 1].len() as int, false));
        }
        assert forall|i: int| 0 <= i < t.len() implies (#[trigger] t[i]).len() > 0 by {
            assert(t[i] == items[i + 1]);
        }
        lemma_read_items(close, t, tv, read, rest);
        assert(seq![vals[0]] + tv =~= vals);
    }
}

/// A list that the encoder framed reads back as its elements: where each
/// element's encoding is read back by `read` as its value whenever a comma
/// or the closing delimiter follows it, reading the list with `begin`,
/// `read` and `after_item` gives the values, whatever follows the list.
pub proof fn law_list_roundtrip<V>(
    open: u8,
    close: u8,
    items: Seq<Seq<u8>>,
    vals: Seq<V>,
    read: spec_fn(Seq<u8>) -> Step<V>,
    rest: Seq<u8>,
)
    requires
        !spec_is_whitespace(open),
        !spec_is_whitespace(close),
        close != COMMA,
        items.len() == vals.len(),
        forall|i: int| 0 <= i < items.len() ==> (#[trigger] items[i]).len() > 0 && !spec_is_whitespace(items[i][0])
            && items[i][0] != close,
        forall|i: int, x: Seq<u8>|
            0 <= i < items.len() && x.len() > 0 && (x[0] == COMMA || x[0] == close) ==> #[trigger] read(items[i] + x)
                == ok_step(vals[i], items[i].len() as int, false),
    ensures
        sp_read_list(seq![open] + joined(items) + seq![close] + rest, open, close, read) == ok_step(
            vals,
            joined(items).len() + 2int,
            false,
        ),
{
    let w = seq![open] + joined(items) + seq![close] + rest;
    lemma_no_ws(w);
    let v2 = w.skip(1);
    if items.len() == 0 {
        assert(joined(items) =~= Seq::<u8>::empty());
        assert(v2 =~= seq![close] + rest);
        lemma_no_ws(v2);
        assert(vals =~= Seq::<V>::empty());
    } else {
        assert(joined(items) =~= items[0] + comma_led(items.drop_first()));
        assert(v2 =~= joined(items) + seq![close] + rest);
        assert(v2[0] == items[0][0]);
        lemma_no_ws(v2);
        assert forall|i: int| 0 <= i < items.len() implies (#[trigger] items[i]).len() > 0 by {}
        lemma_read_items(close, items, vals, read, rest);
        assert(w.skip(1) == v2);
    }
}

/// Reading an entry of a map: its key, a string, then the colon and the
/// value, read by `read`.
pub open spec fn sp_read_entry<V>(w: Seq<u8>, read: spec_fn(Seq<u8>) -> Step<V>) -> Step<(Seq<char>, V)> {
    let k = sp_parse_string(w);
    match k.result {
        Err(x) => err_step(x, k.pos, k.hit_end),
        Ok(key) => if 0 <= k.pos <= w.len() {
            let c = sp_after_key(w.skip(k.pos));
            let n = k.pos + c.pos;
            let h = k.hit_end || c.hit_end;
            match c.result {
                Err(x) => err_step(x, n, h),
                Ok(_) => if 0 <= c.pos && n <= w.len() {
                    let v = read(w.skip(n));
                    match v.result {
                        Err(x) => err_step(x, n + v.pos, h || v.hit_end),
                        Ok(val) => ok_step((key, val), n + v.pos, h || v.hit_end),
                    }
                } else {
                    err_step(ErrorView::UnexpectedEnd, n, h)
                },
            }
        } else {
            err_step(ErrorView::UnexpectedEnd, k.pos, k.hit_end)
        },
    }
}

/// The text of a map entry: the encoded key, a colon and the encoded value.
pub open spec fn entry_text(key: Seq<char>, value: Seq<u8>) -> Seq<u8> {
    quoted(encode_utf8(key)) + seq![COLON] + value
}

/// A map that the encoder framed reads back as its entries: where each
/// value's encoding is read back by `read` as its value whenever a comma
/// or the closing brace follows it, reading the map with `begin`, the
/// string reads of the keys, `after_key`, `read` and `after_item` gives the
/// keys and values, whatever follows the map.
#[verifier::rlimit(50)]
#[verifier::spinoff_prover]
pub proof fn law_map_roundtrip<V>(
    keys: Seq<Seq<char>>,
    items: Seq<Seq<u8>>,
    vals: Seq<V>,
    read: spec_fn(Seq<u8>) -> Step<V>,
    rest: Seq<u8>,
)
    requires
        keys.len() == items.len(),
        items.len() == vals.len(),
        forall|i: int| 0 <= i < items.len() ==> (#[trigger] items[i]).len() > 0 && !spec_is_whitespace(items[i][0]),
        forall|i: int, x: Seq<u8>|
            0 <= i < items.len() && x.len() > 0 && (x[0] == COMMA || x[0] == MAP_END) ==> #[trigger] read(items[i] + x)
                == ok_step(vals[i], items[i].len() as int, false),
    ensures
        ({
            let texts = Seq::new(keys.len(), |i: int| entry_text(keys[i], items[i]));
            let entries = Seq::new(keys.len(), |i: int| (keys[i], vals[i]));
            sp_read_list(
                seq![MAP_BEGIN] + joined(texts) + seq![MAP_END] + rest,
                MAP_BEGIN,
                MAP_END,
                |w: Seq<u8>| sp_read_entry(w, read),
            ) == ok_step(entries, joined(texts).len() + 2int, false)
        }),
{
    let texts = Seq::new(keys.len(), |i: int| entry_text(keys[i], items[i]));
    let entries = Seq::new(keys.len(), |i: int| (keys[i], vals[i]));
    let er = |w: Seq<u8>| sp_read_entry(w, read);
    assert forall|i: int| 0 <= i < texts.len() implies (#[trigger] texts[i]).len() > 0 && !spec_is_whitespace(texts[i][0])
        && texts[i][0] != MAP_END by {
        assert(texts[i][0] == QUOTE);
    }
    assert forall|i: int, x: Seq<u8>|
        0 <= i < texts.len() && x.len() > 0 && (x[0] == COMMA || x[0] == MAP_END) implies #[trigger] er(texts[i] + x)
            == ok_step(entries[i], texts[i].len() as int, false) by {
        let q = quoted(encode_utf8(keys[i]));
        let y = seq![COLON] + items[i] + x;
        let w = texts[i] + x;
        assert(w =~= q + y);
        law_string_roundtrip(keys[i], y);
        assert(w.skip(q.len() as int) =~= y);
        law_framing_roundtrip(MAP_BEGIN, MAP_END, items[i] + x);
        assert(y =~= seq![COLON] + (items[i] + x));
        assert(w.skip(q.len() + 1int) =~= items[i] + x);
        assert(read(items[i] + x) == ok_step(vals[i], items[i].len() as int, false));
    }
    law_list_roundtrip(MAP_BEGIN, MAP_END, texts, entries, er, rest);
}

/// A list of strings that the encoder wrote reads back as the strings,
/// whatever follows it.
pub proof fn law_string_list_roundtrip(strs: Seq<Seq<char>>, rest: Seq<u8>)
    ensures
        ({
            let items = Seq::new(strs.len(), |i: int| quoted(encode_utf8(strs[i])));
            sp_read_list(
                seq![LIST_BEGIN] + joined(items) + seq![LIST_END] + rest,
                LIST_BEGIN,
                LIST_END,
                |w: Seq<u8>| sp_parse_string(w),
            ) == ok_step(strs, joined(items).len() + 2int, false)
        }),
{
    let items = Seq::new(strs.len(), |i: int| quoted(encode_utf8(strs[i])));
    let read = |w: Seq<u8>| sp_parse_string(w);
    assert forall|i: int| 0 <= i < items.len() implies (#[trigger] items[i]).len() > 0 && !spec_is_whitespace(items[i][0])
        && items[i][0] != LIST_END by {
        assert(items[i][0] == QUOTE);
    }
    assert forall|i: int, x: Seq<u8>|
        0 <= i < items.len() && x.len() > 0 && (x[0] == COMMA || x[0] == LIST_END) implies #[trigger] read(items[i] + x)
            == ok_step(strs[i], items[i].len() as int, false) by {
        law_string_roundtrip(strs[i], x);
    }
    law_list_roundtrip(LIST_BEGIN, LIST_END, items, strs, read, rest);
}

/// A list of integers that the encoder wrote reads back as the integers,
/// read as integers in `[min, max]` (signed or not), whatever follows it.
pub proof fn law_integer_list_roundtrip(xs: Seq<int>, signed: bool, min: int, max: int, rest: Seq<u8>)
    requires
        forall|i: int| 0 <= i < xs.len() ==> min <= #[trigger] xs[i] <= max && (signed || xs[i] >= 0),
    ensures
        ({
            let items = Seq::new(xs.len(), |i: int| decimal(xs[i]));
            sp_read_list(
                seq![LIST_BEGIN] + joined(items) + seq![LIST_END] + rest,
                LIST_BEGIN,
                LIST_END,
                |w: Seq<u8>| sp_parse_integer(w, signed, min, max),
            ) == ok_step(xs, joined(items).len() + 2int, false)
        }),
{
    let items = Seq::new(xs.len(), |i: int| decimal(xs[i]));
    let read = |w: Seq<u8>| sp_parse_integer(w, signed, min, max);
    assert forall|i: int| 0 <= i < items.len() implies (#[trigger] items[i]).len() > 0 && !spec_is_whitespace(items[i][0])
        && items[i][0] != LIST_END by {
        let x = xs[i];
        let m: nat = if x < 0 { (-x) as nat } else { x as nat };
        lemma_decimal_digits(m);
        assert(spec_is_digit(decimal_digits(m)[0]));
        if x < 0 {
            assert(items[i][0] == 0x2du8);
        } else {
            assert(items[i][0] == decimal_digits(m)[0]);
        }
    }
    assert forall|i: int, x: Seq<u8>|
        0 <= i < items.len() && x.len() > 0 && (x[0] == COMMA || x[0] == LIST_END) implies #[trigger] read(items[i] + x)
            == ok_step(xs[i], items[i].len() as int, false) by {
        law_integer_roundtrip(xs[i], x, signed, min, max);
    }
    law_list_roundtrip(LIST_BEGIN, LIST_END, items, xs, read, rest);
}

/// The text of pieces: each delimiter's byte and each encoding, in order.
pub open spec fn pieces_text(ps: Seq<Piece<Seq<u8>>>) -> Seq<u8>
    decreases ps.len(),
{
    if ps.len() == 0 {
        Seq::empty()
    } else {
        pieces_text(ps.drop_last()) + match ps.last() {
            Piece::Delimiter(b) => seq![b],
            Piece::Encoded(t) => t,
        }
    }
}

proof fn lemma_pieces_concat(a: Seq<Piece<Seq<u8>>>, b: Seq<Piece<Seq<u8>>>)
    ensures
        pieces_text(a + b) == pieces_text(a) + pieces_text(b),
    decreases b.len(),
{
    if b.len() == 0 {
        assert(a + b =~= a);
        assert(pieces_text(a) + pieces_text(b) =~= pieces_text(a));
    } else {
        lemma_pieces_concat(a, b.drop_last());
        assert((a + b).drop_last() =~= a + b.drop_last());
        assert((a + b).last() == b.last());
        assert(pieces_text(a + b) =~= pieces_text(a) + pieces_text(b));
    }
}

proof fn lemma_comma_led_push(t: Seq<Seq<u8>>, x: Seq<u8>)
    ensures
        comma_led(t.push(x)) == comma_led(t) + seq![COMMA] + x,
    decreases t.len(),
{
    if t.len() == 0 {
        reveal_with_fuel(comma_led, 2);
        assert(t.push(x).drop_first() =~= Seq::<Seq<u8>>::empty());
        assert(comma_led(t.push(x)) =~= comma_led(t) + seq![COMMA] + x);
    } else {
        lemma_comma_led_push(t.drop_first(), x);
        assert(t.push(x).drop_first() =~= t.drop_first().push(x));
        assert(comma_led(t.push(x)) =~= comma_led(t) + seq![COMMA] + x);
    }
}

/// The pieces of a list are the text of the list: the opening bracket, the
/// encodings separated by commas, and the closing bracket.
pub proof fn law_list_pieces_text(items: Seq<Seq<u8>>)
    ensures
        pieces_text(list_pieces(items)) == seq![LIST_BEGIN] + joined(items) + seq![LIST_END],
{
    lemma_item_pieces_text(items);
    let open: Seq<Piece<Seq<u8>>> = seq![Piece::Delimiter(LIST_BEGIN)];
    let close: Seq<Piece<Seq<u8>>> = seq![Piece::Delimiter(LIST_END)];
    lemma_pieces_concat(open, item_pieces(items));
    lemma_pieces_concat(open + item_pieces(items), close);
    reveal_with_fuel(pieces_text, 2);
    assert(open.drop_last() =~= Seq::<Piece<Seq<u8>>>::empty());
    assert(close.drop_last() =~= Seq::<Piece<Seq<u8>>>::empty());
    assert(pieces_text(open) =~= seq![LIST_BEGIN]);
    assert(pieces_text(close) =~= seq![LIST_END]);
}

proof fn lemma_item_pieces_text(items: Seq<Seq<u8>>)
    ensures
        pieces_text(item_pieces(items)) == joined(items),
    decreases items.len(),
{
    if items.len() > 0 {
        let p = items.drop_last();
        let x = items.last();
        lemma_item_pieces_text(p);
        let sep: Seq<Piece<Seq<u8>>> = if items.len() > 1 { seq![Piece::Delimiter(COMMA)] } else { Seq::empty() };
        let last: Seq<Piece<Seq<u8>>> = seq![Piece::Encoded(x)];
        lemma_pieces_concat(item_pieces(p), sep);
        lemma_pieces_concat(item_pieces(p) + sep, last);
        reveal_with_fuel(pieces_text, 2);
        assert(last.drop_last() =~= Seq::<Piece<Seq<u8>>>::empty());
        assert(pieces_text(last) =~= x);
        assert(p.push(x) =~= items);
        if items.len() > 1 {
            assert(seq![Piece::<Seq<u8>>::Delimiter(COMMA)].drop_last() =~= Seq::<Piece<Seq<u8>>>::empty());
            assert(pieces_text(sep) =~= seq![COMMA]);
            lemma_comma_led_push(p.drop_first(), x);
            assert(p.drop_first().push(x) =~= items.drop_first());
            assert(joined(items) =~= joined(p) + seq![COMMA] + x);
        } else {
            assert(pieces_text(sep) =~= Seq::<u8>::empty());
            assert(items.drop_first() =~= Seq::<Seq<u8>>::empty());
            assert(joined(items) =~= x);
            assert(joined(p) =~= Seq::<u8>::empty());
        }
        assert(pieces_text(item_pieces(items)) =~= joined(items));
    } else {
        assert(joined(items) =~= Seq::<u8>::empty());
    }
}

/// The texts of the entries of a map: each key's encoding, a colon and
/// the value's encoding.
pub open spec fn entry_texts(entries: Seq<(Seq<u8>, Seq<u8>)>) -> Seq<Seq<u8>> {
    Seq::new(entries.len(), |i: int| entries[i].0 + seq![COLON] + entries[i].1)
}

/// The pieces of a map are the text of the map: the opening brace, the
/// entries' texts separated by commas, and the closing brace.
pub proof fn law_map_pieces_text(entries: Seq<(Seq<u8>, Seq<u8>)>)
    ensures
        pieces_text(map_pieces(entries)) == seq![MAP_BEGIN] + joined(entry_texts(entries)) + seq![MAP_END],
{
    lemma_entry_pieces_text(entries);
    let open: Seq<Piece<Seq<u8>>> = seq![Piece::Delimiter(MAP_BEGIN)];
    let close: Seq<Piece<Seq<u8>>> = seq![Piece::Delimiter(MAP_END)];
    lemma_pieces_concat(open, entry_pieces(entries));
    lemma_pieces_concat(open + entry_pieces(entries), close);
    reveal_with_fuel(pieces_text, 2);
    assert(open.drop_last() =~= Seq::<Piece<Seq<u8>>>::empty());
    assert(close.drop_last() =~= Seq::<Piece<Seq<u8>>>::empty());
    assert(pieces_text(open) =~= seq![MAP_BEGIN]);
    assert(pieces_text(close) =~= seq![MAP_END]);
}

proof fn lemma_entry_pieces_text(entries: Seq<(Seq<u8>, Seq<u8>)>)
    ensures
        pieces_text(entry_pieces(entries)) == joined(entry_texts(entries)),
    decreases entries.len(),
{
    let items = entry_texts(entries);
    if entries.len() > 0 {
        let p = entries.drop_last();
        let (k, v) = entries.last();
        let x = k + seq![COLON] + v;
        lemma_entry_pieces_text(p);
        assert(entry_texts(p) =~= items.drop_last());
        assert(items.last() == x);
        let sep: Seq<Piece<Seq<u8>>> = if entries.len() > 1 { seq![Piece::Delimiter(COMMA)] } else { Seq::empty() };
        let last: Seq<Piece<Seq<u8>>> = seq![Piece::Encoded(k), Piece::Delimiter(COLON), Piece::Encoded(v)];
        lemma_pieces_concat(entry_pieces(p), sep);
        lemma_pieces_concat(entry_pieces(p) + sep, last);
        reveal_with_fuel(pieces_text, 4);
        assert(last.drop_last() =~= seq![Piece::Encoded(k), Piece::Delimiter(COLON)]);
        assert(last.drop_last().drop_last() =~= seq![Piece::Encoded(k)]);
        assert(last.drop_last().drop_last().drop_last() =~= Seq::<Piece<Seq<u8>>>::empty());
        assert(pieces_text(last) =~= x);
        assert(items.drop_last().push(x) =~= items);
        if entries.len() > 1 {
            assert(seq![Piece::<Seq<u8>>::Delimiter(COMMA)].drop_last() =~= Seq::<Piece<Seq<u8>>>::empty());
            assert(pieces_text(sep) =~= seq![COMMA]);
            lemma_comma_led_push(items.drop_last().drop_first(), x);
            assert(items.drop_last().drop_first().push(x) =~= items.drop_first());
            assert(joined(items) =~= joined(items.drop_last()) + seq![COMMA] + x);
        } else {
            assert(pieces_text(sep) =~= Seq::<u8>::empty());
            assert(items.drop_first() =~= Seq::<Seq<u8>>::empty());
            assert(joined(items) =~= x);
            assert(joined(items.drop_last()) =~= Seq::<u8>::empty());
        }
        assert(pieces_text(entry_pieces(entries)) =~= joined(items));
    } else {
        assert(joined(items) =~= Seq::<u8>::empty());
    }
}

} // verus!
