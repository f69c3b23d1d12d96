//! Encode values as JSON text.
//!
//! Primitive values are encoded here in full. Lists and maps are framed:
//! their elements are encoded separately (by the caller) and this module
//! decides which delimiters stand between them.
use vstd::prelude::*;
use std::collections::VecDeque;

use crate::constants::{QUOTE, ESCAPE, COLON, COMMA, LIST_BEGIN, LIST_END, MAP_BEGIN, MAP_END};
use vstd::string::StringSliceAdditionalSpecFns;
use vstd::utf8::encode_utf8;

pub mod stream;

verus! {

/// What went wrong while encoding.
#[derive(Debug)]
pub enum ErrorKind {
    /// A map key was given while the previous key still waits for its value.
    KeyWithoutValue,
    /// A map value was given with no key before it.
    ValueWithoutKey,
    /// A map was ended while a key still waits for its value.
    EndWithoutValue,
    /// A message from the caller.
    Custom(String),
}

/// The mathematical view of an encoding [`ErrorKind`].
pub enum ErrorView {
    KeyWithoutValue,
    ValueWithoutKey,
    EndWithoutValue,
    Custom(Seq<char>),
}

impl View for ErrorKind {
    type V = ErrorView;

    open spec fn view(&self) -> ErrorView {
        match self {
            ErrorKind::KeyWithoutValue => ErrorView::KeyWithoutValue,
            ErrorKind::ValueWithoutKey => ErrorView::ValueWithoutKey,
            ErrorKind::EndWithoutValue => ErrorView::EndWithoutValue,
            ErrorKind::Custom(m) => ErrorView::Custom(m@),
        }
    }
}

/// An error encountered while encoding a stream.
#[derive(Debug)]
pub struct Error {
    kind: ErrorKind,
}

impl View for Error {
    type V = ErrorView;

    closed spec fn view(&self) -> ErrorView {
        self.kind@
    }
}

impl Error {
    /// An error of the given kind.
    pub fn new(kind: ErrorKind) -> (e: Error)
        ensures
            e@ == kind@,
    {
        Error { kind }
    }

    /// An error that carries the caller's message.
    pub fn custom(message: String) -> (e: Error)
        ensures
            e@ == ErrorView::Custom(message@),
    {
        Error { kind: ErrorKind::Custom(message) }
    }

    /// What went wrong.
    pub fn kind(&self) -> (k: &ErrorKind)
        ensures
            k@ == self@,
    {
        &self.kind
    }
}

/// The encoding of one byte of a string's text: a quote or a backslash is
/// escaped by a backslash before it.
pub open spec fn escape_byte(b: u8) -> Seq<u8> {
    if b == QUOTE || b == ESCAPE {
        seq![ESCAPE, b]
    } else {
        seq![b]
    }
}

/// The text `s` with each quote and backslash escaped.
pub open spec fn escaped_text(s: Seq<u8>) -> Seq<u8>
    decreases s.len(),
{
    if s.len() == 0 {
        Seq::empty()
    } else {
        escaped_text(s.drop_last()) + escape_byte(s.last())
    }
}

/// The JSON string whose text is `s`.
pub open spec fn quoted(s: Seq<u8>) -> Seq<u8> {
    seq![QUOTE] + escaped_text(s) + seq![QUOTE]
}

/// Escape each quote and backslash of `value` with a backslash.
pub fn escape(value: &[u8]) -> (r: Vec<u8>)
    ensures
        r@ == escaped_text(value@),
{
    let mut encoded: Vec<u8> = Vec::new();
    let mut k: usize = 0;
    proof {
        assert(value@.take(0) =~= Seq::<u8>::empty());
    }
    while k < value.len()
        invariant
            k <= value@.len(),
            encoded@ == escaped_text(value@.take(k as int)),
        decreases value@.len() - k,
    {
        let b = value[k];
        proof {
            assert(value@.take(k + 1).drop_last() =~= value@.take(k as int));
            assert(value@.take(k + 1).last() == b);
        }
        if b == QUOTE || b == ESCAPE {
            encoded.push(ESCAPE);
        }
        encoded.push(b);
        proof {
            assert(encoded@ =~= escaped_text(value@.take(k as int)) + escape_byte(b));
        }
        k = k + 1;
    }
    proof {
        assert(value@.take(k as int) =~= value@);
    }
    encoded
}

/// Encode a string: its bytes, escaped, between quotes.
pub fn encode_str(v: &str) -> (r: Vec<u8>)
    ensures
        r@ == quoted(v.spec_bytes()),
{
    let mut chunk: Vec<u8> = Vec::new();
    chunk.push(QUOTE);
    let mut escaped = escape(v.as_bytes());
    chunk.append(&mut escaped);
    chunk.push(QUOTE);
    proof {
        assert(chunk@ =~= quoted(v.spec_bytes()));
    }
    chunk
}

/// The bytes of `true` or `false`.
pub open spec fn bool_text(b: bool) -> Seq<u8> {
    if b {
        seq![0x74u8, 0x72u8, 0x75u8, 0x65u8]
    } else {
        seq![0x66u8, 0x61u8, 0x6cu8, 0x73u8, 0x65u8]
    }
}

/// The bytes of `null`.
pub open spec fn null_text() -> Seq<u8> {
    seq![0x6eu8, 0x75u8, 0x6cu8, 0x6cu8]
}

/// Encode a boolean.
pub fn encode_bool(v: bool) -> (r: Vec<u8>)
    ensures
        r@ == bool_text(v),
{
    let r = if v {
        vec![0x74u8, 0x72u8, 0x75u8, 0x65u8]
    } else {
        vec![0x66u8, 0x61u8, 0x6cu8, 0x73u8, 0x65u8]
    };
    proof {
        assert(r@ =~= bool_text(v));
    }
    r
}

/// Encode the absence of a value, or the unit value: `null`.
pub fn encode_null() -> (r: Vec<u8>)
    ensures
        r@ == null_text(),
{
    let r = vec![0x6eu8, 0x75u8, 0x6cu8, 0x6cu8];
    proof {
        assert(r@ =~= null_text());
    }
    r
}

/// The decimal digits of `n`, without leading zeros.
pub open spec fn decimal_digits(n: nat) -> Seq<u8>
    decreases n,
{
    if n < 10 {
        seq![(0x30 + n) as u8]
    } else {
        decimal_digits(n / 10).push((0x30 + n % 10) as u8)
    }
}

/// The decimal text of the integer `x`: `-` before the digits of a negative one.
pub open spec fn decimal(x: int) -> Seq<u8> {
    if x < 0 {
        seq![0x2du8] + decimal_digits((-x) as nat)
    } else {
        decimal_digits(x as nat)
    }
}

/// Append the decimal digits of `n` to `out`.
fn push_digits(out: &mut Vec<u8>, n: u64)
    ensures
        final(out)@ == old(out)@ + decimal_digits(n as nat),
    decreases n,
{
    if n >= 10 {
        push_digits(out, n / 10);
    }
    out.push(0x30u8 + (n % 10) as u8);
    proof {
        assert(final(out)@ =~= old(out)@ + decimal_digits(n as nat));
    }
}

/// Encode an unsigned integer in decimal.
pub fn encode_u64(v: u64) -> (r: Vec<u8>)
    ensures
        r@ == decimal(v as int),
{
    let mut out: Vec<u8> = Vec::new();
    push_digits(&mut out, v);
    proof {
        assert(out@ =~= decimal(v as int));
    }
    out
}

/// Encode a signed integer in decimal.
pub fn encode_i64(v: i64) -> (r: Vec<u8>)
    ensures
        r@ == decimal(v as int),
{
    let mut out: Vec<u8> = Vec::new();
    if v < 0 {
        out.push(0x2du8);
        let magnitude: u64 = (-(v as i128)) as u64;
        push_digits(&mut out, magnitude);
    } else {
        push_digits(&mut out, v as u64);
    }
    proof {
        assert(out@ =~= decimal(v as int));
    }
    out
}


/// The character of the standard base64 alphabet (`A`-`Z`, `a`-`z`,
/// `0`-`9`, `+`, `/`) for the six-bit value `x`.
pub open spec fn base64_digit(x: int) -> char {
    if x < 26 {
        (0x41 + x) as char
    } else if x < 52 {
        (0x61 + x - 26) as char
    } else if x < 62 {
        (0x30 + x - 52) as char
    } else if x == 62 {
        '+'
    } else {
        '/'
    }
}

/// Standard base64 with padding: each three bytes, read as four six-bit
/// values from the most significant bit on, become four characters; a last
/// one or two bytes become two or three characters, filled with `=` to four.
pub open spec fn base64_text(data: Seq<u8>) -> Seq<char>
    decreases data.len(),
{
    if data.len() == 0 {
        Seq::empty()
    } else if data.len() == 1 {
        let a = data[0] as int;
        seq![base64_digit(a / 4), base64_digit((a % 4) * 16), '=', '=']
    } else if data.len() == 2 {
        let a = data[0] as int;
        let b = data[1] as int;
        seq![base64_digit(a / 4), base64_digit((a % 4) * 16 + b / 16), base64_digit((b % 16) * 4), '=']
    } else {
        let a = data[0] as int;
        let b = data[1] as int;
        let c = data[2] as int;
        seq![
            base64_digit(a / 4),
            base64_digit((a % 4) * 16 + b / 16),
            base64_digit((b % 16) * 4 + c / 64),
            base64_digit(c % 64),
        ] + base64_text(data.skip(3))
    }
}

/// `base64::encode`: the standard base64 text of `data`, with padding (the
/// crate's `STANDARD` engine: the standard alphabet, padded).
#[verifier::external_body]
#[allow(deprecated)]
fn base64_encode(data: &[u8]) -> (r: String)
    ensures
        r@ == base64_text(data@),
{
    base64::encode(data)
}

/// Encode a byte buffer: its base64 text, as a string.
pub fn encode_bytes(v: &[u8]) -> (r: Vec<u8>)
    ensures
        r@ == quoted(encode_utf8(base64_text(v@))),
{
    let encoded = base64_encode(v);
    encode_str(encoded.as_str())
}

/// A piece of the text of a list or a map: a delimiter, or the encoding of
/// an element, which the caller produced.
#[derive(Debug)]
pub enum Piece<T> {
    Delimiter(u8),
    Encoded(T),
}

/// The pieces of the entries of a map, each key followed by a colon and its
/// value, the entries separated by commas.
pub open spec fn entry_pieces<T>(entries: Seq<(T, T)>) -> Seq<Piece<T>>
    decreases entries.len(),
{
    if entries.len() == 0 {
        Seq::empty()
    } else {
        let before = entry_pieces(entries.drop_last());
        let sep: Seq<Piece<T>> = if entries.len() > 1 { seq![Piece::Delimiter(COMMA)] } else { Seq::empty() };
        before + sep + seq![
            Piece::Encoded(entries.last().0),
            Piece::Delimiter(COLON),
            Piece::Encoded(entries.last().1),
        ]
    }
}

/// The pieces of a map: its entries between braces.
pub open spec fn map_pieces<T>(entries: Seq<(T, T)>) -> Seq<Piece<T>> {
    seq![Piece::Delimiter(MAP_BEGIN)] + entry_pieces(entries) + seq![Piece::Delimiter(MAP_END)]
}

/// The pieces of the items of a list, separated by commas.
pub open spec fn item_pieces<T>(items: Seq<T>) -> Seq<Piece<T>>
    decreases items.len(),
{
    if items.len() == 0 {
        Seq::empty()
    } else {
        let before = item_pieces(items.drop_last());
        let sep: Seq<Piece<T>> = if items.len() > 1 { seq![Piece::Delimiter(COMMA)] } else { Seq::empty() };
        before + sep + seq![Piece::Encoded(items.last())]
    }
}

/// The pieces of a list: its items between brackets.
pub open spec fn list_pieces<T>(items: Seq<T>) -> Seq<Piece<T>> {
    seq![Piece::Delimiter(LIST_BEGIN)] + item_pieces(items) + seq![Piece::Delimiter(LIST_END)]
}

/// Collects the encoded keys and values of a map, in order, and frames them.
pub struct MapEncoder<T> {
    pending_key: Option<T>,
    entries: VecDeque<(T, T)>,
}

impl<T> MapEncoder<T> {
    /// The key that waits for its value, if any.
    pub closed spec fn pending(&self) -> Option<T> {
        self.pending_key
    }

    /// The entries collected so far, in order.
    pub closed spec fn entries(&self) -> Seq<(T, T)> {
        self.entries@
    }

    /// An encoder of an empty map, with room for `size_hint` entries if given.
    pub fn new(size_hint: Option<usize>) -> (m: Self)
        ensures
            m.pending() is None,
            m.entries().len() == 0,
    {
        let entries = match size_hint {
            Some(len) => VecDeque::with_capacity(len),
            None => VecDeque::new(),
        };
        MapEncoder { pending_key: None, entries }
    }

    /// Whether a key may come next: no key waits for its value.
    pub fn check_key(&self) -> (r: Result<(), Error>)
        ensures
            r is Ok <==> self.pending() is None,
            r matches Err(e) ==> e@ == ErrorView::KeyWithoutValue,
    {
        if self.pending_key.is_none() {
            Ok(())
        } else {
            Err(Error::new(ErrorKind::KeyWithoutValue))
        }
    }

    /// Take the next key, which waits for its value; an error where a key
    /// already waits, and then nothing changes.
    pub fn encode_key(&mut self, key: T) -> (r: Result<(), Error>)
        ensures
            r is Ok <==> old(self).pending() is None,
            r is Ok ==> final(self).pending() == Some(key) && final(self).entries() == old(self).entries(),
            r matches Err(e) ==> e@ == ErrorView::KeyWithoutValue && *final(self) == *old(self),
    {
        if self.pending_key.is_none() {
            self.pending_key = Some(key);
            Ok(())
        } else {
            Err(Error::new(ErrorKind::KeyWithoutValue))
        }
    }

    /// Whether a value may come next: a key waits for it.
    pub fn check_value(&self) -> (r: Result<(), Error>)
        ensures
            r is Ok <==> self.pending() is Some,
            r matches Err(e) ==> e@ == ErrorView::ValueWithoutKey,
    {
        if self.pending_key.is_some() {
            Ok(())
        } else {
            Err(Error::new(ErrorKind::ValueWithoutKey))
        }
    }

    /// Take the value of the waiting key, completing an entry; an error
    /// where no key waits, and then nothing changes.
    pub fn encode_value(&mut self, value: T) -> (r: Result<(), Error>)
        ensures
            r is Ok <==> old(self).pending() is Some,
            r is Ok ==> final(self).pending() is None && final(self).entries() == old(self).entries().push(
                (old(self).pending()->Some_0, value),
            ),
            r matches Err(e) ==> e@ == ErrorView::ValueWithoutKey && *final(self) == *old(self),
    {
        match self.pending_key.take() {
            Some(key) => {
                self.entries.push_back((key, value));
                Ok(())
            },
            None => Err(Error::new(ErrorKind::ValueWithoutKey)),
        }
    }

    /// The pieces of the map: its entries between braces; an error where a
    /// key still waits for its value.
    pub fn end(self) -> (r: Result<Vec<Piece<T>>, Error>)
        ensures
            r is Ok <==> self.pending() is None,
            r matches Ok(p) ==> p@ == map_pieces(self.entries()),
            r matches Err(e) ==> e@ == ErrorView::EndWithoutValue,
    {
        if self.pending_key.is_some() {
            return Err(Error::new(ErrorKind::EndWithoutValue));
        }
        let ghost all = self.entries@;
        let mut entries = self.entries;
        let mut encoded: Vec<Piece<T>> = Vec::new();
        encoded.push(Piece::Delimiter(MAP_BEGIN));
        let ghost mut k: int = 0;
        let mut first = true;
        proof {
            assert(all.take(0) =~= Seq::<(T, T)>::empty());
            assert(encoded@ =~= seq![Piece::Delimiter(MAP_BEGIN)] + entry_pieces(all.take(0)));
        }
        while entries.len() > 0
            invariant
                0 <= k <= all.len(),
                entries@ == all.skip(k),
                first == (k == 0),
                encoded@ == seq![Piece::<T>::Delimiter(MAP_BEGIN)] + entry_pieces(all.take(k)),
            decreases entries@.len(),
        {
            let ghost before = encoded@;
            let (key, value) = entries.pop_front().unwrap();
            proof {
                assert(all[k] == (key, value));
                assert(all.take(k + 1).drop_last() =~= all.take(k));
                assert(all.take(k + 1).last() == (key, value));
            }
            if !first {
                encoded.push(Piece::Delimiter(COMMA));
            }
            first = false;
            encoded.push(Piece::Encoded(key));
            encoded.push(Piece::Delimiter(COLON));
            encoded.push(Piece::Encoded(value));
            proof {
                assert(entries@ =~= all.skip(k + 1));
                assert(encoded@ =~= seq![Piece::<T>::Delimiter(MAP_BEGIN)] + entry_pieces(all.take(k + 1)));
                k = k + 1;
            }
        }
        encoded.push(Piece::Delimiter(MAP_END));
        proof {
            assert(all.take(k) =~= all);
            assert(encoded@ =~= map_pieces(all));
        }
        Ok(encoded)
    }
}

/// Collects the encoded items of a list or a tuple, in order, and frames them.
pub struct SequenceEncoder<T> {
    items: VecDeque<T>,
}

impl<T> SequenceEncoder<T> {
    /// The items collected so far, in order.
    pub closed spec fn items(&self) -> Seq<T> {
        self.items@
    }

    /// An encoder of an empty list, with room for `size_hint` items if given.
    pub fn new(size_hint: Option<usize>) -> (s: Self)
        ensures
            s.items().len() == 0,
    {
        let items = match size_hint {
            Some(len) => VecDeque::with_capacity(len),
            None => VecDeque::new(),
        };
        SequenceEncoder { items }
    }

    /// Take the next item.
    pub fn push(&mut self, value: T)
        ensures
            final(self).items() == old(self).items().push(value),
    {
        self.items.push_back(value);
    }

    /// The pieces of the list: its items between brackets.
    pub fn encode(self) -> (r: Vec<Piece<T>>)
        ensures
            r@ == list_pieces(self.items()),
    {
        let ghost all = self.items@;
        let mut items = self.items;
        let mut encoded: Vec<Piece<T>> = Vec::new();
        encoded.push(Piece::Delimiter(LIST_BEGIN));
        let ghost mut k: int = 0;
        let mut first = true;
        proof {
            assert(all.take(0) =~= Seq::<T>::empty());
            assert(encoded@ =~= seq![Piece::Delimiter(LIST_BEGIN)] + item_pieces(all.take(0)));
        }
        while items.len() > 0
            invariant
                0 <= k <= all.len(),
                items@ == all.skip(k),
                first == (k == 0),
                encoded@ == seq![Piece::<T>::Delimiter(LIST_BEGIN)] + item_pieces(all.take(k)),
            decreases items@.len(),
        {
            let item = items.pop_front().unwrap();
            proof {
                assert(all[k] == item);
                assert(all.take(k + 1).drop_last() =~= all.take(k));
                assert(all.take(k + 1).last() == item);
            }
            if !first {
                encoded.push(Piece::Delimiter(COMMA));
            }
            first = false;
            encoded.push(Piece::Encoded(item));
            proof {
                assert(items@ =~= all.skip(k + 1));
                assert(encoded@ =~= seq![Piece::<T>::Delimiter(LIST_BEGIN)] + item_pieces(all.take(k + 1)));
                k = k + 1;
            }
        }
        encoded.push(Piece::Delimiter(LIST_END));
        proof {
            assert(all.take(k) =~= all);
            assert(encoded@ =~= list_pieces(all));
        }
        encoded
    }
}

} // verus!
