//! Decode a JSON stream, read as a sequence of byte chunks.
use vstd::prelude::*;
use std::collections::VecDeque;


pub mod error;
pub mod grammar;
pub mod lemmas;
pub mod number;
pub mod prefix;
pub mod skip;

pub use error::{Error, ErrorKind, ErrorView, view_result};
use number::{token_integer, MAGNITUDE_CAP};
use prefix::stable;
use grammar::{
    Step, ByteClass, ValueKind, in_class, scan_end, ws_len, ok_step, err_step, then, fail, starts_with,
    bytes_true, bytes_false, bytes_null, sp_next_or_eof, sp_peek, sp_peek_or_null, sp_next_char,
    sp_next_char_or_null, sp_eat_char, sp_buffer_while, sp_whitespace, sp_expect_delimiter,
    sp_maybe_delimiter, sp_parse_bool, sp_parse_unit, sp_parse_null, sp_ignore_exactly,
    hex_value, sp_hex_digits, sp_hex_escape, sp_ignore_escaped_char, sp_string_body,
    sp_ignore_string, sp_skip_digits, sp_ignore_exponent, sp_ignore_decimal, sp_number_rest,
    sp_ignore_number, sp_ignore_value, sp_ignore_array, sp_buffer_string, sp_parse_string,
    sp_parse_integer, sp_number_token, sp_number_is_float, sp_value_kind, sp_begin,
    sp_after_key, sp_after_item, sp_finish, sp_object_value_rest, unescape, escaped, close_index, sp_array_items,
    hex4, prepend, simple_escape_byte,
    sp_ignore_object, sp_object_entries, sp_object_entry, sp_array_item, sp_object_member,
};
use crate::constants::{
    is_whitespace, is_numeric, starts_number, is_digit, is_escape_char, spec_is_escape_char, DECIMAL, EXPONENT, QUOTE,
    ESCAPE, COMMA, COLON, LIST_BEGIN, EXPONENT_UPPER, LIST_END, MAP_BEGIN, MAP_END,
};
use lemmas::{
    lemma_scan_end_bounds, lemma_scan_end_step, lemma_close_index_step, lemma_unescape_errors,
    lemma_close_index_bounds,
};
use vstd::utf8::{valid_utf8, decode_utf8, encode_scalar, is_scalar};

verus! {

/// The bytes a sequence of chunks delivers before its first failure.
pub open spec fn data_prefix(cs: Seq<Result<Vec<u8>, String>>) -> Seq<u8>
    decreases cs.len(),
{
    if cs.len() == 0 {
        Seq::empty()
    } else {
        match cs[0] {
            Ok(d) => d@ + data_prefix(cs.drop_first()),
            Err(_) => Seq::empty(),
        }
    }
}

/// The chunks from the first failure on (empty where there is none).
pub open spec fn failure_tail(cs: Seq<Result<Vec<u8>, String>>) -> Seq<Result<Vec<u8>, String>>
    decreases cs.len(),
{
    if cs.len() == 0 {
        cs
    } else {
        match cs[0] {
            Ok(_) => failure_tail(cs.drop_first()),
            Err(_) => cs,
        }
    }
}

proof fn lemma_failure_tail_starts_with_failure(cs: Seq<Result<Vec<u8>, String>>)
    ensures
        failure_tail(cs).len() > 0 ==> failure_tail(cs)[0] is Err,
    decreases cs.len(),
{
    if cs.len() > 0 && cs[0] is Ok {
        lemma_failure_tail_starts_with_failure(cs.drop_first());
    }
}

/// The bytes and the failures that follow handing `cs` one more chunk `c`.
proof fn lemma_push_chunk(cs: Seq<Result<Vec<u8>, String>>, c: Result<Vec<u8>, String>)
    ensures
        data_prefix(cs.push(c)) == data_prefix(cs) + (if failure_tail(cs).len() == 0 && c is Ok {
            c->Ok_0@
        } else {
            Seq::empty()
        }),
        failure_tail(cs.push(c)) == (if failure_tail(cs).len() > 0 {
            failure_tail(cs).push(c)
        } else if c is Err {
            seq![c]
        } else {
            Seq::empty()
        }),
    decreases cs.len(),
{
    if cs.len() == 0 {
        assert(cs.push(c) =~= seq![c]);
        assert(seq![c].drop_first() =~= Seq::<Result<Vec<u8>, String>>::empty());
        assert(data_prefix(cs) =~= Seq::<u8>::empty());
        assert(failure_tail(cs).len() == 0);
        if c is Ok {
            assert(data_prefix(seq![c]) =~= c->Ok_0@ + data_prefix(Seq::<Result<Vec<u8>, String>>::empty()));
            assert(data_prefix(seq![c]) =~= c->Ok_0@);
            assert(failure_tail(seq![c]) == failure_tail(seq![c].drop_first()));
            assert(failure_tail(Seq::<Result<Vec<u8>, String>>::empty()).len() == 0);
        } else {
            assert(failure_tail(seq![c]) == seq![c]);
        }
    } else {
        assert(cs.push(c).drop_first() =~= cs.drop_first().push(c));
        assert(cs.push(c)[0] == cs[0]);
        if cs[0] is Ok {
            lemma_push_chunk(cs.drop_first(), c);
            assert(failure_tail(cs.push(c)) == failure_tail(cs.drop_first().push(c)));
            assert(failure_tail(cs) == failure_tail(cs.drop_first()));
            assert(data_prefix(cs.push(c)) =~= data_prefix(cs) + (if failure_tail(cs).len() == 0 && c is Ok {
                c->Ok_0@
            } else {
                Seq::empty()
            }));
        } else {
            assert(failure_tail(cs.push(c)) == cs.push(c));
            assert(failure_tail(cs) == cs);
        }
    }
}

/// A decodable sequence of chunks, each either bytes or a failure reported
/// by the stream they came from. While it is open, the stream may deliver
/// more chunks after those it holds; once a read finds that nothing is left
/// of a closed one, it stays terminated.
#[derive(Clone)]
pub struct SourceStream {
    chunks: VecDeque<Result<Vec<u8>, String>>,
    terminated: bool,
    open: bool,
}

impl SourceStream {
    /// The chunks not yet read, in order.
    pub closed spec fn pending(&self) -> Seq<Result<Vec<u8>, String>> {
        self.chunks@
    }

    /// Whether a read found that nothing is left.
    pub closed spec fn spec_is_terminated(&self) -> bool {
        self.terminated
    }

    /// Whether the stream may deliver more chunks than it holds.
    pub closed spec fn spec_is_open(&self) -> bool {
        self.open
    }

    /// A stream that holds no chunks yet and may deliver some.
    pub fn open() -> (s: SourceStream)
        ensures
            s.pending().len() == 0,
            !s.spec_is_terminated(),
            s.spec_is_open(),
    {
        SourceStream { chunks: VecDeque::new(), terminated: false, open: true }
    }

    /// A stream that delivers the given chunks in order, and nothing more.
    pub fn from_chunks(chunks: Vec<Result<Vec<u8>, String>>) -> (s: SourceStream)
        ensures
            s.pending() == chunks@,
            !s.spec_is_terminated(),
            !s.spec_is_open(),
    {
        let mut deque: VecDeque<Result<Vec<u8>, String>> = VecDeque::new();
        let mut chunks = chunks;
        let ghost all = chunks@;
        while chunks.len() > 0
            invariant
                all =~= chunks@ + deque@,
            decreases chunks.len(),
        {
            let c = chunks.pop().unwrap();
            deque.push_front(c);
        }
        SourceStream { chunks: deque, terminated: false, open: false }
    }

    /// Return `true` if a read found that nothing is left.
    #[verifier::when_used_as_spec(spec_is_terminated)]
    pub fn is_terminated(&self) -> (r: bool)
        ensures
            r == self.spec_is_terminated(),
    {
        self.terminated
    }
}


/// How many bytes of the buffer an error quotes.
pub const SNIPPET_LEN: usize = 50;

/// The bytes of the buffer that an error quotes.
pub open spec fn snippet(buf: Seq<u8>) -> Seq<u8> {
    buf.take(if buf.len() <= SNIPPET_LEN { buf.len() as int } else { SNIPPET_LEN as int })
}

/// The quoted bytes as text, where they are valid UTF-8.
pub open spec fn quote(buf: Seq<u8>) -> Option<Seq<char>> {
    if valid_utf8(snippet(buf)) {
        Some(decode_utf8(snippet(buf)))
    } else {
        None
    }
}

/// An error that quotes the buffer, with the quote filled in from `buf`; an
/// error that quotes nothing is unchanged. A quote that is not valid UTF-8
/// turns the error into [`ErrorView::InvalidUtf8`].
pub open spec fn with_snippet(e: ErrorView, buf: Seq<u8>) -> ErrorView {
    match e {
        ErrorView::UnexpectedDelimiter(f, x, _) => match quote(buf) {
            Some(q) => ErrorView::UnexpectedDelimiter(f, x, q),
            None => ErrorView::InvalidUtf8,
        },
        ErrorView::InvalidBool(_) => match quote(buf) {
            Some(q) => ErrorView::InvalidBool(q),
            None => ErrorView::InvalidUtf8,
        },
        ErrorView::InvalidUnit(_) => match quote(buf) {
            Some(q) => ErrorView::InvalidUnit(q),
            None => ErrorView::InvalidUtf8,
        },
        ErrorView::InvalidAny(_) => match quote(buf) {
            Some(q) => ErrorView::InvalidAny(q),
            None => ErrorView::InvalidUtf8,
        },
        ErrorView::TrailingContent(_) => match quote(buf) {
            Some(q) => ErrorView::TrailingContent(q),
            None => ErrorView::InvalidUtf8,
        },
        _ => e,
    }
}

pub open spec fn snippet_result<V>(r: Result<V, ErrorView>, buf: Seq<u8>) -> Result<V, ErrorView> {
    match r {
        Ok(v) => Ok(v),
        Err(e) => Err(with_snippet(e, buf)),
    }
}

/// The text of the given bytes, where they are valid UTF-8 (`String::from_utf8`).
#[verifier::external_body]
fn utf8_string(bytes: Vec<u8>) -> (r: Option<String>)
    ensures
        r is Some <==> valid_utf8(bytes@),
        r matches Some(s) ==> s@ == decode_utf8(bytes@),
{
    String::from_utf8(bytes).ok()
}

/// A structure that decodes JSON from a [`SourceStream`]: the bytes read
/// from the stream and not yet consumed stand in a buffer.
#[derive(Clone)]
pub struct Decoder {
    source: SourceStream,
    buffer: Vec<u8>,
}

impl Decoder {
    /// All the bytes that can still be read: the buffer, then the chunks
    /// up to the first failure.
    pub closed spec fn input(self) -> Seq<u8> {
        if self.source.terminated {
            self.buffer@
        } else {
            self.buffer@ + data_prefix(self.source.chunks@)
        }
    }

    /// The chunks from the first failure on.
    pub closed spec fn rest(self) -> Seq<Result<Vec<u8>, String>> {
        if self.source.terminated {
            Seq::empty()
        } else {
            failure_tail(self.source.chunks@)
        }
    }

    /// Whether the stream may deliver more chunks after those it holds,
    /// none of which is a failure.
    pub open spec fn waiting(self) -> bool {
        !self.terminated() && self.source_open() && self.rest().len() == 0
    }

    /// Whether the input does not end with the stream: a failure of the
    /// stream lies after it, or chunks that have not arrived yet.
    pub open spec fn blocked(self) -> bool {
        self.rest().len() > 0 || self.waiting()
    }

    /// What lies after the input: the failure of the stream, or, where none
    /// lies there, chunks that have not arrived yet.
    pub closed spec fn obstacle(self) -> ErrorView {
        if self.rest().len() > 0 {
            match self.rest()[0] {
                Err(m) => ErrorView::Source(m@),
                Ok(_) => ErrorView::Source(Seq::empty()),
            }
        } else {
            ErrorView::NeedMore
        }
    }

    /// Whether the stream may deliver more chunks than it holds.
    pub closed spec fn source_open(self) -> bool {
        self.source.open
    }

    /// Whether a read found that nothing is left in the stream.
    pub closed spec fn terminated(self) -> bool {
        self.source.terminated
    }

    /// The bytes read from the stream and not yet consumed.
    pub closed spec fn buffered(self) -> Seq<u8> {
        self.buffer@
    }

    /// The buffer is the start of the input.
    pub proof fn lemma_buffered_prefix(self)
        ensures
            self.buffered().len() <= self.input().len(),
            self.buffered() =~= self.input().take(self.buffered().len() as int),
            self.terminated() ==> self.buffered() == self.input() && !self.blocked(),
    {
    }
}

/// The decoder went from `pre` to `post` and returned `r`, as the step `s`
/// that the operation takes on `pre`'s input says: where the step needs to
/// look at the end of the input and the stream does not end there, the
/// result is what lies there (a failure of the stream, or the need of more
/// chunks); otherwise it is the step's result, the step's bytes are
/// consumed, and the stream is terminated if the step looked at the end.
pub open spec fn settles<V>(pre: Decoder, post: Decoder, r: Result<V, ErrorView>, s: Step<V>) -> bool {
    if s.hit_end && pre.blocked() {
        r == Err::<V, ErrorView>(pre.obstacle())
    } else {
        &&& r == snippet_result(s.result, post.input())
        &&& 0 <= s.pos <= pre.input().len()
        &&& post.input() == pre.input().skip(s.pos)
        &&& post.rest() == pre.rest()
        &&& post.terminated() == (pre.terminated() || s.hit_end)
        &&& post.source_open() == pre.source_open()
    }
}

impl Decoder {
    /// A decoder of the given source.
    pub fn from(source: SourceStream) -> (d: Decoder)
        ensures
            d.input() == (if source.spec_is_terminated() { Seq::empty() } else { data_prefix(source.pending()) }),
            d.rest() == (if source.spec_is_terminated() { Seq::empty() } else { failure_tail(source.pending()) }),
            d.terminated() == source.spec_is_terminated(),
            d.source_open() == source.spec_is_open(),
            d.buffered().len() == 0,
    {
        let d = Decoder { source, buffer: Vec::new() };
        assert(d.buffer@ + data_prefix(d.source.chunks@) =~= data_prefix(d.source.chunks@));
        d
    }

    /// Construct a new [`Decoder`] from the given chunks of a stream.
    pub fn from_stream(chunks: Vec<Result<Vec<u8>, String>>) -> (d: Decoder)
        ensures
            d.input() == data_prefix(chunks@),
            d.rest() == failure_tail(chunks@),
            !d.terminated(),
            !d.source_open(),
            d.buffered().len() == 0,
            all_ok(chunks@) ==> d.input() == flatten(chunks@) && !d.blocked(),
    {
        proof {
            if all_ok(chunks@) {
                law_stream_without_failures(chunks@);
            }
        }
        Decoder::from(SourceStream::from_chunks(chunks))
    }

    /// A decoder of a stream whose chunks are handed to it as they arrive,
    /// none of which has arrived yet.
    pub fn open_stream() -> (d: Decoder)
        ensures
            d.input().len() == 0,
            d.rest().len() == 0,
            !d.terminated(),
            d.source_open(),
            d.buffered().len() == 0,
    {
        Decoder::from(SourceStream::open())
    }

    /// Hand the decoder the next chunk of its stream. Its bytes join the
    /// input unless a failure of the stream lies before them.
    pub fn push_chunk(&mut self, chunk: Result<Vec<u8>, String>)
        ensures
            final(self).buffered() == old(self).buffered(),
            final(self).terminated() == old(self).terminated(),
            final(self).source_open() == old(self).source_open(),
            old(self).terminated() ==> final(self).input() == old(self).input() && final(self).rest() == old(self).rest(),
            !old(self).terminated() ==> final(self).input() == old(self).input() + (if old(self).rest().len() == 0
                && chunk is Ok { chunk->Ok_0@ } else { Seq::empty() }),
            !old(self).terminated() ==> final(self).rest() == (if old(self).rest().len() > 0 {
                old(self).rest().push(chunk)
            } else if chunk is Err {
                seq![chunk]
            } else {
                Seq::empty()
            }),
    {
        let ghost before = self.source.chunks@;
        let ghost c = chunk;
        self.source.chunks.push_back(chunk);
        proof {
            lemma_push_chunk(before, c);
            if !self.source.terminated {
                assert(self.buffer@ + data_prefix(self.source.chunks@) =~= old(self).input() + (if failure_tail(
                    before,
                ).len() == 0 && c is Ok { c->Ok_0@ } else { Seq::empty() }));
            }
        }
    }

    /// Tell the decoder that its stream delivers no more chunks than it was
    /// handed.
    pub fn close_source(&mut self)
        ensures
            !final(self).source_open(),
            final(self).buffered() == old(self).buffered(),
            final(self).input() == old(self).input(),
            final(self).rest() == old(self).rest(),
            final(self).terminated() == old(self).terminated(),
    {
        self.source.open = false;
    }

    /// Return `true` if this [`Decoder`] has no more data to be decoded:
    /// its stream has ended and nothing of it is left in the buffer.
    pub fn is_terminated(&self) -> (r: bool)
        ensures
            r == (self.terminated() && self.buffered().len() == 0),
    {
        self.source.terminated && self.buffer.len() == 0
    }

    /// The number of bytes read from the stream and not yet consumed.
    pub fn buffer_len(&self) -> (n: usize)
        ensures
            n == self.buffered().len(),
    {
        self.buffer.len()
    }

    /// Read chunks until the buffer holds more than `i` bytes or the
    /// stream has ended; `true` if the buffer holds more than `i` bytes.
    fn fill(&mut self, i: usize) -> (r: Result<bool, Error>)
        ensures
            i < old(self).input().len() ==> {
                &&& r == Ok::<bool, Error>(true)
                &&& final(self).input() == old(self).input()
                &&& final(self).rest() == old(self).rest()
                &&& final(self).terminated() == old(self).terminated()
                &&& final(self).buffered().len() > i
            },
            i >= old(self).input().len() && old(self).blocked() ==> r is Err
                && r->Err_0@ == old(self).obstacle(),
            i >= old(self).input().len() && !old(self).blocked() ==> {
                &&& r == Ok::<bool, Error>(false)
                &&& final(self).input() == old(self).input()
                &&& final(self).rest() == old(self).rest()
                &&& final(self).terminated()
                &&& final(self).buffered() == old(self).input()
            },
            settles(*old(self), *final(self), view_result(r), sp_fill(old(self).input(), i as int)),
    {
        proof {
            assert(old(self).input().skip(0) =~= old(self).input());
        }
        while self.buffer.len() <= i && !self.source.terminated
            invariant
                self.input() == old(self).input(),
                self.rest() == old(self).rest(),
                self.source.terminated ==> old(self).terminated() || old(self).input().len() <= i,
                old(self).terminated() ==> self.source.terminated,
                self.source.open == old(self).source.open,
                !self.source.terminated ==> !old(self).terminated(),
                self.source.terminated && !old(self).terminated() ==> !old(self).blocked(),
            decreases self.source.chunks@.len() + (if self.source.terminated { 0int } else { 1int }),
        {
            let ghost before = self.source.chunks@;
            match self.source.chunks.pop_front() {
                Some(Ok(data)) => {
                    let mut data = data;
                    assert(before[0] is Ok);
                    assert(self.source.chunks@ == before.drop_first());
                    self.buffer.append(&mut data);
                    assert(data_prefix(before) == before[0]->Ok_0@ + data_prefix(before.drop_first()));
                },
                Some(Err(msg)) => {
                    proof {
                        lemma_failure_tail_starts_with_failure(before);
                    }
                    return Err(Error::new(ErrorKind::Source(msg)));
                },
                None => {
                    if self.source.open {
                        return Err(Error::new(ErrorKind::NeedMore));
                    }
                    self.source.terminated = true;
                },
            }
        }
        Ok(self.buffer.len() > i)
    }
}


impl Decoder {
    /// Drop the first `k` bytes of the buffer.
    pub fn consume(&mut self, k: usize)
        requires
            k <= old(self).buffered().len(),
        ensures
            final(self).input() == old(self).input().skip(k as int),
            final(self).buffered() == old(self).buffered().skip(k as int),
            final(self).rest() == old(self).rest(),
            final(self).terminated() == old(self).terminated(),
            final(self).source_open() == old(self).source_open(),
    {
        let tail = self.buffer.split_off(k);
        self.buffer = tail;
        assert(self.buffer@ == old(self).buffer@.skip(k as int));
        if !self.source.terminated {
            assert(self.buffer@ + data_prefix(self.source.chunks@) =~= (old(self).buffer@
                + data_prefix(self.source.chunks@)).skip(k as int));
        }
    }

    /// Read the next byte, which must be there.
    pub fn next_or_eof(&mut self) -> (r: Result<u8, Error>)
        ensures
            settles(*old(self), *final(self), view_result(r), sp_next_or_eof(old(self).input())),
    {
        let filled = self.fill(0)?;
        proof {
            self.lemma_buffered_prefix();
        }
        if filled {
            let b = self.buffer[0];
            self.consume(1);
            Ok(b)
        } else {
            Err(Error::new(ErrorKind::UnexpectedEnd))
        }
    }

    /// Look at the next byte without consuming it.
    pub fn peek(&mut self) -> (r: Result<Option<u8>, Error>)
        ensures
            settles(*old(self), *final(self), view_result(r), sp_peek(old(self).input())),
    {
        let filled = self.fill(0)?;
        proof {
            self.lemma_buffered_prefix();
            assert(self.input().skip(0) =~= self.input());
        }
        if filled {
            Ok(Some(self.buffer[0]))
        } else {
            Ok(None)
        }
    }

    /// Look at the next byte without consuming it; 0 at the end of the input.
    pub fn peek_or_null(&mut self) -> (r: Result<u8, Error>)
        ensures
            settles(*old(self), *final(self), view_result(r), sp_peek_or_null(old(self).input())),
    {
        match self.peek()? {
            Some(b) => Ok(b),
            None => Ok(0u8),
        }
    }

    /// Read the next byte, if there is one.
    pub fn next_char(&mut self) -> (r: Result<Option<u8>, Error>)
        ensures
            settles(*old(self), *final(self), view_result(r), sp_next_char(old(self).input())),
    {
        let filled = self.fill(0)?;
        proof {
            self.lemma_buffered_prefix();
        }
        if filled {
            let b = self.buffer[0];
            self.consume(1);
            Ok(Some(b))
        } else {
            Ok(None)
        }
    }

    /// Consume the next byte, if there is one.
    pub fn eat_char(&mut self) -> (r: Result<(), Error>)
        ensures
            settles(*old(self), *final(self), view_result(r), sp_eat_char(old(self).input())),
    {
        self.next_char()?;
        Ok(())
    }

    /// Read the next byte; 0 at the end of the input.
    pub fn next_char_or_null(&mut self) -> (r: Result<u8, Error>)
        ensures
            settles(*old(self), *final(self), view_result(r), sp_next_char_or_null(old(self).input())),
    {
        match self.next_char()? {
            Some(b) => Ok(b),
            None => Ok(0u8),
        }
    }
}

/// Reading until more than `i` bytes are buffered: whether they are.
pub open spec fn sp_fill(w: Seq<u8>, i: int) -> Step<bool> {
    ok_step(i < w.len(), 0, i >= w.len())
}

/// A result whose value is a count, taken as a mathematical integer.
pub open spec fn int_result(r: Result<usize, Error>) -> Result<int, ErrorView> {
    match r {
        Ok(n) => Ok(n as int),
        Err(e) => Err(e@),
    }
}

/// Running a step after another that succeeded composes their outcomes.
pub proof fn lemma_then<A, B>(
    pre: Decoder,
    mid: Decoder,
    post: Decoder,
    a: A,
    s1: Step<A>,
    r2: Result<B, ErrorView>,
    s2: Step<B>,
)
    requires
        settles(pre, mid, Ok::<A, ErrorView>(a), s1),
        settles(mid, post, r2, s2),
    ensures
        settles(pre, post, r2, then(s1, s2)),
        s1.result == Ok::<A, ErrorView>(a),
{
    if !(s1.hit_end && pre.blocked()) && !(s2.hit_end && mid.blocked()) {
        assert(pre.input().skip(s1.pos).skip(s2.pos) =~= pre.input().skip(s1.pos + s2.pos));
    }
}

/// A step that failed ends the operation with its error.
pub proof fn lemma_fail<A, B>(pre: Decoder, post: Decoder, e: ErrorView, s: Step<A>)
    requires
        settles(pre, post, Err::<A, ErrorView>(e), s),
    ensures
        settles(pre, post, Err::<B, ErrorView>(e), fail::<A, B>(s)),
{
}

/// The exec test of a byte class.
pub fn in_byte_class(c: ByteClass, b: u8) -> (r: bool)
    ensures
        r == in_class(c, b),
{
    match c {
        ByteClass::Whitespace => is_whitespace(b),
        ByteClass::Numeric => is_numeric(b),
        ByteClass::Digit => is_digit(b),
        ByteClass::IntegerLike => is_numeric(b) && b != DECIMAL && b != EXPONENT && b != EXPONENT_UPPER,
    }
}

impl Decoder {
    /// Count the run of bytes of class `c` that starts the input, reading
    /// chunks as far as it goes, without consuming it.
    fn buffer_while(&mut self, c: ByteClass) -> (r: Result<usize, Error>)
        ensures
            settles(*old(self), *final(self), int_result(r), sp_buffer_while(old(self).input(), c)),
            r matches Ok(n) ==> n <= final(self).buffered().len(),
    {
        let ghost w = self.input();
        proof {
            lemma_scan_end_bounds(w, 0, c);
        }
        let mut i: usize = 0;
        loop
            invariant
                self.input() == w,
                self.rest() == old(self).rest(),
                self.terminated() == old(self).terminated(),
                w == old(self).input(),
                self.source_open() == old(self).source_open(),
                0 <= i <= w.len(),
                i <= scan_end(w, 0, c),
            decreases w.len() - i,
        {
            proof {
                lemma_scan_end_bounds(w, i as int, c);
                lemma_scan_end_step(w, 0, i as int, c);
            }
            let filled = match self.fill(i) {
                Ok(h) => h,
                Err(e) => {
                    proof {
                        let sp = sp_buffer_while(w, c);
                        assert(sp.hit_end);
                        assert(old(self).blocked());
                    }
                    return Err(e);
                },
            };
            proof {
                self.lemma_buffered_prefix();
            }
            if filled && in_byte_class(c, self.buffer[i]) {
                assert(self.buffer@.len() > i);
                assert(self.buffer.len() > i);
                i = i + 1;
            } else {
                proof {
                    assert(w.skip(0) =~= w);
                    assert(scan_end(w, 0, c) == i);
                    assert(self.input() == old(self).input().skip(0));
                    assert(self.terminated() == (old(self).terminated() || scan_end(w, 0, c) >= w.len()));
                }
                return Ok(i);
            }
        }
    }

    /// Skip white space.
    pub fn expect_whitespace(&mut self) -> (r: Result<(), Error>)
        ensures
            settles(*old(self), *final(self), view_result(r), sp_whitespace(old(self).input())),
    {
        let ghost w = self.input();
        let i = match self.buffer_while(ByteClass::Whitespace) {
            Ok(i) => i,
            Err(e) => {
                return Err(e);
            },
        };
        proof {
            assert(w.skip(0) =~= w);
        }
        self.consume(i);
        Ok(())
    }

    /// Whether the buffer starts with `p`.
    fn buffer_starts_with(&self, p: &[u8]) -> (r: bool)
        ensures
            r == starts_with(self.buffered(), p@),
    {
        if self.buffer.len() < p.len() {
            return false;
        }
        let mut k: usize = 0;
        while k < p.len()
            invariant
                k <= p@.len() <= self.buffer@.len(),
                forall|m: int| 0 <= m < k ==> self.buffer@[m] == p@[m],
            decreases p@.len() - k,
        {
            if self.buffer[k] != p[k] {
                proof {
                    assert(self.buffer@.take(p@.len() as int)[k as int] != p@[k as int]);
                }
                return false;
            }
            k = k + 1;
        }
        proof {
            assert(self.buffer@.take(p@.len() as int) =~= p@);
        }
        true
    }

    /// The first `max_len` bytes of the buffer, as text.
    pub fn contents(&self, max_len: usize) -> (r: Result<String, Error>)
        ensures
            ({
                let n = if self.buffered().len() <= max_len { self.buffered().len() as int } else { max_len as int };
                let p = self.buffered().take(n);
                &&& (r is Ok <==> valid_utf8(p))
                &&& r matches Ok(s) ==> s@ == decode_utf8(p)
                &&& r matches Err(e) ==> e@ == ErrorView::InvalidUtf8
            }),
    {
        let n = if self.buffer.len() <= max_len { self.buffer.len() } else { max_len };
        let mut prefix: Vec<u8> = Vec::new();
        let mut k: usize = 0;
        while k < n
            invariant
                n <= self.buffer@.len(),
                k <= n,
                prefix@ =~= self.buffer@.take(k as int),
            decreases n - k,
        {
            prefix.push(self.buffer[k]);
            k = k + 1;
        }
        match utf8_string(prefix) {
            Some(s) => Ok(s),
            None => Err(Error::new(ErrorKind::InvalidUtf8)),
        }
    }

    /// Move the bytes of the chunks that have arrived into the buffer, up to
    /// the first failure of the stream, until it holds `n` bytes or the
    /// whole input.
    fn buffer_up_to(&mut self, n: usize)
        ensures
            final(self).input() == old(self).input(),
            final(self).rest() == old(self).rest(),
            final(self).terminated() == old(self).terminated(),
            final(self).source_open() == old(self).source_open(),
            final(self).buffered().len() >= n || final(self).buffered() == final(self).input(),
    {
        if self.source.terminated {
            return;
        }
        while self.buffer.len() < n
            invariant
                !self.source.terminated,
                !old(self).source.terminated,
                self.input() == old(self).input(),
                self.rest() == old(self).rest(),
                self.source.open == old(self).source.open,
            decreases self.source.chunks@.len(),
        {
            let ghost before = self.source.chunks@;
            match self.source.chunks.pop_front() {
                Some(Ok(data)) => {
                    let mut data = data;
                    assert(before[0] is Ok);
                    assert(self.source.chunks@ == before.drop_first());
                    self.buffer.append(&mut data);
                    assert(data_prefix(before) == before[0]->Ok_0@ + data_prefix(before.drop_first()));
                    assert(self.buffer@ + data_prefix(self.source.chunks@) =~= old(self).input());
                },
                Some(Err(msg)) => {
                    self.source.chunks.push_front(Err(msg));
                    assert(self.source.chunks@ =~= before);
                    assert(data_prefix(before) =~= Seq::<u8>::empty());
                    assert(self.buffer@ + data_prefix(before) =~= self.buffer@);
                    return;
                },
                None => {
                    assert(before.len() == 0);
                    assert(data_prefix(before) =~= Seq::<u8>::empty());
                    assert(self.buffer@ + data_prefix(before) =~= self.buffer@);
                    return;
                },
            }
        }
    }

    /// The first bytes of the input, as many as an error quotes, as text.
    fn quote_input(&mut self) -> (r: Result<String, Error>)
        ensures
            final(self).input() == old(self).input(),
            final(self).rest() == old(self).rest(),
            final(self).terminated() == old(self).terminated(),
            final(self).source_open() == old(self).source_open(),
            r is Ok <==> quote(old(self).input()) is Some,
            r matches Ok(s) ==> quote(old(self).input()) == Some(s@),
            r matches Err(e) ==> e@ == ErrorView::InvalidUtf8,
    {
        self.buffer_up_to(SNIPPET_LEN);
        proof {
            self.lemma_buffered_prefix();
            assert(snippet(self.buffered()) =~= snippet(self.input()));
        }
        self.contents(SNIPPET_LEN)
    }

    /// Consume the delimiter `delimiter`, which must come next.
    pub fn expect_delimiter(&mut self, delimiter: u8) -> (r: Result<(), Error>)
        ensures
            settles(*old(self), *final(self), view_result(r), sp_expect_delimiter(old(self).input(), delimiter)),
    {
        let filled = self.fill(0)?;
        proof {
            self.lemma_buffered_prefix();
        }
        if !filled {
            return Err(Error::new(ErrorKind::UnexpectedEnd));
        }
        if self.buffer[0] == delimiter {
            self.consume(1);
            Ok(())
        } else {
            let b = self.buffer[0];
            let contents = self.quote_input()?;
            proof {
                assert(old(self).input().skip(0) =~= old(self).input());
            }
            Err(Error::new(ErrorKind::UnexpectedDelimiter(b, delimiter, contents)))
        }
    }

    /// Consume the delimiter `delimiter` if it comes next; whether it did.
    pub fn maybe_delimiter(&mut self, delimiter: u8) -> (r: Result<bool, Error>)
        ensures
            settles(*old(self), *final(self), view_result(r), sp_maybe_delimiter(old(self).input(), delimiter)),
    {
        let filled = self.fill(0)?;
        proof {
            self.lemma_buffered_prefix();
            assert(old(self).input().skip(0) =~= old(self).input());
        }
        if !filled {
            Ok(false)
        } else if self.buffer[0] == delimiter {
            self.consume(1);
            Ok(true)
        } else {
            Ok(false)
        }
    }
}

/// The bytes of `true`.
pub fn literal_true() -> (r: [u8; 4])
    ensures
        r@ == bytes_true(),
{
    let r: [u8; 4] = [0x74u8, 0x72u8, 0x75u8, 0x65u8];
    assert(r@ =~= bytes_true());
    r
}

/// The bytes of `false`.
pub fn literal_false() -> (r: [u8; 5])
    ensures
        r@ == bytes_false(),
{
    let r: [u8; 5] = [0x66u8, 0x61u8, 0x6cu8, 0x73u8, 0x65u8];
    assert(r@ =~= bytes_false());
    r
}

/// The bytes of `null`.
pub fn literal_null() -> (r: [u8; 4])
    ensures
        r@ == bytes_null(),
{
    let r: [u8; 4] = [0x6eu8, 0x75u8, 0x6cu8, 0x6cu8];
    assert(r@ =~= bytes_null());
    r
}

/// Where the buffer holds at least `p.len()` bytes, or all of the input,
/// it starts with `p` just when the input does.
pub proof fn lemma_buffer_starts_with(d: Decoder, p: Seq<u8>)
    requires
        d.buffered().len() >= p.len() || d.buffered() == d.input(),
    ensures
        starts_with(d.buffered(), p) == starts_with(d.input(), p),
{
    d.lemma_buffered_prefix();
    if d.buffered().len() >= p.len() {
        assert(d.buffered().take(p.len() as int) =~= d.input().take(p.len() as int));
    }
}

impl Decoder {
    /// Read `true` or `false` after white space.
    #[verifier::rlimit(40)]
    pub fn parse_bool(&mut self) -> (r: Result<bool, Error>)
        ensures
            settles(*old(self), *final(self), view_result(r), sp_parse_bool(old(self).input())),
    {
        let ghost w = self.input();
        let ghost s0 = *self;
        proof {
            lemma_scan_end_bounds(w, 0, ByteClass::Whitespace);
        }
        if let Err(e) = self.expect_whitespace() {
            proof {
                lemma_fail::<(), bool>(s0, *self, e@, sp_whitespace(w));
            }
            return Err(e);
        }
        let ghost s1 = *self;
        let ghost j = ws_len(w);
        let ghost v = s1.input();
        proof {
            lemma_scan_end_bounds(w, 0, ByteClass::Whitespace);
            assert(v == w.skip(j));
        }
        let t = literal_true();
        let f = literal_false();
        if let Err(e) = self.fill(3) {
            return Err(e);
        }
        proof {
            self.lemma_buffered_prefix();
            lemma_buffer_starts_with(*self, bytes_true());
        }
        if self.buffer.len() == 0 {
            return Err(Error::new(ErrorKind::UnexpectedEnd));
        }
        if self.buffer_starts_with(t.as_slice()) {
            self.consume(4);
            proof {
                assert(w.skip(j).skip(4) =~= w.skip(j + 4));
            }
            return Ok(true);
        }
        let ghost s2 = *self;
        if let Err(e) = self.fill(4) {
            return Err(e);
        }
        proof {
            self.lemma_buffered_prefix();
            lemma_buffer_starts_with(*self, bytes_false());
        }
        if self.buffer.len() == 0 {
            return Err(Error::new(ErrorKind::UnexpectedEnd));
        }
        if self.buffer_starts_with(f.as_slice()) {
            self.consume(5);
            proof {
                assert(w.skip(j).skip(5) =~= w.skip(j + 5));
            }
            return Ok(false);
        }
        let contents = match self.quote_input() {
            Ok(c) => c,
            Err(e) => {
                return Err(e);
            },
        };
        Err(Error::new(ErrorKind::InvalidBool(contents)))
    }

    /// Read `null` after white space.
    #[verifier::rlimit(40)]
    pub fn parse_unit(&mut self) -> (r: Result<(), Error>)
        ensures
            settles(*old(self), *final(self), view_result(r), sp_parse_unit(old(self).input())),
    {
        let ghost w = self.input();
        let ghost s0 = *self;
        proof {
            lemma_scan_end_bounds(w, 0, ByteClass::Whitespace);
        }
        if let Err(e) = self.expect_whitespace() {
            proof {
                lemma_fail::<(), ()>(s0, *self, e@, sp_whitespace(w));
            }
            return Err(e);
        }
        let ghost j = ws_len(w);
        proof {
            lemma_scan_end_bounds(w, 0, ByteClass::Whitespace);
        }
        let n = literal_null();
        if let Err(e) = self.fill(3) {
            return Err(e);
        }
        proof {
            lemma_buffer_starts_with(*self, bytes_null());
        }
        if self.buffer_starts_with(n.as_slice()) {
            self.consume(4);
            proof {
                assert(w.skip(j).skip(4) =~= w.skip(j + 4));
            }
            Ok(())
        } else {
            let contents = match self.quote_input() {
                Ok(c) => c,
                Err(e) => {
                    return Err(e);
                },
            };
            Err(Error::new(ErrorKind::InvalidUnit(contents)))
        }
    }

    /// Skip white space, then `null` if it comes next; whether it did. This
    /// is how an optional value tells `None` from `Some`.
    #[verifier::rlimit(40)]
    pub fn parse_null(&mut self) -> (r: Result<bool, Error>)
        ensures
            settles(*old(self), *final(self), view_result(r), sp_parse_null(old(self).input())),
    {
        let ghost w = self.input();
        let ghost s0 = *self;
        proof {
            lemma_scan_end_bounds(w, 0, ByteClass::Whitespace);
        }
        if let Err(e) = self.expect_whitespace() {
            proof {
                lemma_fail::<(), bool>(s0, *self, e@, sp_whitespace(w));
            }
            return Err(e);
        }
        let ghost j = ws_len(w);
        proof {
            lemma_scan_end_bounds(w, 0, ByteClass::Whitespace);
        }
        let n = literal_null();
        if let Err(e) = self.fill(3) {
            return Err(e);
        }
        proof {
            lemma_buffer_starts_with(*self, bytes_null());
        }
        if self.buffer_starts_with(n.as_slice()) {
            self.consume(4);
            proof {
                assert(w.skip(j).skip(4) =~= w.skip(j + 4));
            }
            Ok(true)
        } else {
            Ok(false)
        }
    }
}

/// A step that succeeded may report another result in its place, one that
/// quotes nothing.
pub proof fn lemma_retarget<A, B>(pre: Decoder, post: Decoder, a: A, s: Step<A>, r: Result<B, ErrorView>)
    requires
        settles(pre, post, Ok::<A, ErrorView>(a), s),
        snippet_result(r, post.input()) == r,
    ensures
        settles(pre, post, r, Step { result: r, pos: s.pos, hit_end: s.hit_end }),
{
}

/// Consuming the bytes of `s` unfolds one byte at a time.
pub proof fn lemma_ignore_exactly_unfold(w: Seq<u8>, s: Seq<u8>, k: int)
    requires
        0 <= k < s.len(),
        k < w.len(),
        w[k] == s[k],
    ensures
        sp_ignore_exactly(w.skip(k), s.skip(k)) == then(
            ok_step((), 1, false),
            sp_ignore_exactly(w.skip(k + 1), s.skip(k + 1)),
        ),
{
    reveal_with_fuel(sp_ignore_exactly, 1);
    assert(w.skip(k).drop_first() =~= w.skip(k + 1));
    assert(s.skip(k).drop_first() =~= s.skip(k + 1));
}

impl Decoder {
    /// Consume the bytes of `s`, each of which must come next in turn.
    pub fn ignore_exactly(&mut self, s: &[u8]) -> (r: Result<(), Error>)
        ensures
            settles(*old(self), *final(self), view_result(r), sp_ignore_exactly(old(self).input(), s@)),
            r is Ok ==> sp_ignore_exactly(old(self).input(), s@) == ok_step((), s@.len() as int, false),
    {
        reveal_with_fuel(sp_ignore_exactly, 1);
        let ghost w = self.input();
        proof {
            assert(w.skip(0) =~= w);
            assert(s@.skip(0) =~= s@);
        }
        let mut k: usize = 0;
        while k < s.len()
            invariant
                w == old(self).input(),
                k <= s@.len(),
                k <= w.len(),
                settles(*old(self), *self, Ok::<(), ErrorView>(()), ok_step((), k as int, false)),
                sp_ignore_exactly(w, s@) == then(
                    ok_step((), k as int, false),
                    sp_ignore_exactly(w.skip(k as int), s@.skip(k as int)),
                ),
            decreases s@.len() - k,
        {
            reveal_with_fuel(sp_ignore_exactly, 1);
            let ghost mid = *self;
            let next = match self.next_or_eof() {
                Ok(b) => b,
                Err(e) => {
                    proof {
                        lemma_then(*old(self), mid, *self, (), ok_step((), k as int, false), Err::<u8, ErrorView>(e@), sp_next_or_eof(mid.input()));
                        lemma_fail::<u8, ()>(*old(self), *self, e@, then(ok_step((), k as int, false), sp_next_or_eof(mid.input())));
                    }
                    return Err(e);
                },
            };
            proof {
                lemma_then(*old(self), mid, *self, (), ok_step((), k as int, false), Ok::<u8, ErrorView>(next), sp_next_or_eof(mid.input()));
            }
            if next != s[k] {
                proof {
                    lemma_retarget(*old(self), *self, next, then(ok_step((), k as int, false), sp_next_or_eof(mid.input())),
                        Err::<(), ErrorView>(ErrorView::UnexpectedChar(next, s@[k as int])));
                }
                return Err(Error::new(ErrorKind::UnexpectedChar(next, s[k])));
            }
            proof {
                lemma_ignore_exactly_unfold(w, s@, k as int);
                lemma_retarget(*old(self), *self, next, then(ok_step((), k as int, false), sp_next_or_eof(mid.input())),
                    Ok::<(), ErrorView>(()));
            }
            k = k + 1;
        }
        proof {
            assert(s@.skip(k as int).len() == 0);
        }
        Ok(())
    }
}

/// The value of a hex digit.
pub fn decode_hex_val(val: u8) -> (r: Option<u16>)
    ensures
        r == hex_value(val),
{
    if 0x30 <= val && val <= 0x39 {
        Some((val - 0x30) as u16)
    } else if 0x61 <= val && val <= 0x66 {
        Some((val - 0x61 + 10) as u16)
    } else if 0x41 <= val && val <= 0x46 {
        Some((val - 0x41 + 10) as u16)
    } else {
        None
    }
}

pub open spec fn u16_result(r: Result<u16, Error>) -> Result<int, ErrorView> {
    match r {
        Ok(n) => Ok(n as int),
        Err(e) => Err(e@),
    }
}

/// Reading hex digits unfolds one digit at a time.
pub proof fn lemma_hex_digits_unfold(w: Seq<u8>, k: int, m: nat, acc: int, d: u16)
    requires
        0 <= k < w.len(),
        m > 0,
        hex_value(w[k]) == Some(d),
    ensures
        sp_hex_digits(w.skip(k), m, acc) == then(
            ok_step((), 1, false),
            sp_hex_digits(w.skip(k + 1), (m - 1) as nat, acc * 16 + d),
        ),
{
    assert(w.skip(k).drop_first() =~= w.skip(k + 1));
}

/// Skipping a string's body unfolds one plain byte at a time.
pub proof fn lemma_string_body_plain(w: Seq<u8>, p: int)
    requires
        0 <= p < w.len(),
        !spec_is_escape_char(w[p]),
    ensures
        sp_string_body(w.skip(p)) == then(ok_step((), 1, false), sp_string_body(w.skip(p + 1))),
{
    assert(w.skip(p).drop_first() =~= w.skip(p + 1));
}

/// Skipping a string's body unfolds one escape sequence at a time.
pub proof fn lemma_string_body_escape(w: Seq<u8>, p: int)
    requires
        0 <= p < w.len(),
        w[p] == 0x5cu8,
    ensures
        ({
            let e = sp_ignore_escaped_char(w.skip(p + 1));
            &&& e.result is Err ==> sp_string_body(w.skip(p)) == then(ok_step((), 1, false), e)
            &&& e.result is Ok && 0 <= e.pos <= w.len() - p - 1 ==> sp_string_body(w.skip(p)) == then(
                ok_step((), 1 + e.pos, e.hit_end),
                sp_string_body(w.skip(p + 1 + e.pos)),
            )
        }),
{
    assert(w.skip(p).drop_first() =~= w.skip(p + 1));
    let e = sp_ignore_escaped_char(w.skip(p + 1));
    if e.result is Ok && 0 <= e.pos <= w.len() - p - 1 {
        assert(w.skip(p).skip(1 + e.pos) =~= w.skip(p + 1 + e.pos));
    }
}

impl Decoder {
    /// Read the four hex digits of a `\u` escape.
    pub fn decode_hex_escape(&mut self) -> (r: Result<u16, Error>)
        ensures
            settles(*old(self), *final(self), u16_result(r), sp_hex_escape(old(self).input())),
    {
        let ghost w = self.input();
        proof {
            assert(w.skip(0) =~= w);
            assert(self.input().skip(0) =~= self.input());
        }
        let mut n: u16 = 0;
        let mut k: usize = 0;
        while k < 4
            invariant
                w == old(self).input(),
                k <= 4,
                k <= w.len(),
                n < (if k == 0 { 1int } else if k == 1 { 16int } else if k == 2 { 256int } else if k == 3 { 4096int } else { 65536int }),
                settles(*old(self), *self, Ok::<(), ErrorView>(()), ok_step((), k as int, false)),
                sp_hex_escape(w) == then(ok_step((), k as int, false), sp_hex_digits(w.skip(k as int), (4 - k) as nat, n as int)),
            decreases 4 - k,
        {
            let ghost mid = *self;
            let next = match self.next_or_eof() {
                Ok(b) => b,
                Err(e) => {
                    proof {
                        lemma_then(*old(self), mid, *self, (), ok_step((), k as int, false), Err::<u8, ErrorView>(e@), sp_next_or_eof(mid.input()));
                        lemma_fail::<u8, int>(*old(self), *self, e@, then(ok_step((), k as int, false), sp_next_or_eof(mid.input())));
                    }
                    return Err(e);
                },
            };
            proof {
                lemma_then(*old(self), mid, *self, (), ok_step((), k as int, false), Ok::<u8, ErrorView>(next), sp_next_or_eof(mid.input()));
            }
            match decode_hex_val(next) {
                None => {
                    proof {
                        lemma_retarget(*old(self), *self, next, then(ok_step((), k as int, false), sp_next_or_eof(mid.input())),
                            Err::<int, ErrorView>(ErrorView::InvalidHexEscape));
                    }
                    return Err(Error::new(ErrorKind::InvalidHexEscape));
                },
                Some(val) => {
                    proof {
                        lemma_hex_digits_unfold(w, k as int, (4 - k) as nat, n as int, val);
                        lemma_retarget(*old(self), *self, next, then(ok_step((), k as int, false), sp_next_or_eof(mid.input())),
                            Ok::<(), ErrorView>(()));
                    }
                    n = n * 16 + val;
                },
            }
            k = k + 1;
        }
        Ok(n)
    }

    /// Skip the escape sequence after a backslash.
    pub fn ignore_escaped_char(&mut self) -> (r: Result<(), Error>)
        ensures
            settles(*old(self), *final(self), view_result(r), sp_ignore_escaped_char(old(self).input())),
    {
        let ghost w = self.input();
        let ch = match self.next_or_eof() {
            Ok(b) => b,
            Err(e) => {
                return Err(e);
            },
        };
        let ghost mid = *self;
        proof {
            assert(mid.input() == w.drop_first());
        }
        if ch == 0x22 || ch == 0x5c || ch == 0x2f || ch == 0x62 || ch == 0x66 || ch == 0x6e || ch == 0x72 || ch == 0x74 {
            Ok(())
        } else if ch == 0x75 {
            match self.decode_hex_escape() {
                Ok(n) => {
                    proof {
                        lemma_then(*old(self), mid, *self, ch, sp_next_or_eof(w), Ok::<int, ErrorView>(n as int), sp_hex_escape(mid.input()));
                        lemma_retarget(*old(self), *self, n as int, then(sp_next_or_eof(w), sp_hex_escape(mid.input())), Ok::<(), ErrorView>(()));
                    }
                    Ok(())
                },
                Err(e) => {
                    proof {
                        lemma_then(*old(self), mid, *self, ch, sp_next_or_eof(w), Err::<int, ErrorView>(e@), sp_hex_escape(mid.input()));
                    }
                    Err(e)
                },
            }
        } else {
            Err(Error::new(ErrorKind::InvalidEscape))
        }
    }

    /// Skip a string: its first byte, which is taken for the opening
    /// quote, and its body up to the closing quote.
    #[verifier::rlimit(40)]
    pub fn ignore_string(&mut self) -> (r: Result<(), Error>)
        ensures
            settles(*old(self), *final(self), view_result(r), sp_ignore_string(old(self).input())),
            r is Ok ==> sp_ignore_string(old(self).input()).pos >= 1,
    {
        reveal(sp_ignore_string);
        let ghost w = self.input();
        if let Err(e) = self.next_or_eof() {
            return Err(e);
        }
        let ghost p: int = 1;
        let ghost h: bool = false;
        proof {
            assert(w.skip(1) =~= w.drop_first());
        }
        loop
            invariant
                w == old(self).input(),
                1 <= p <= w.len(),
                settles(*old(self), *self, Ok::<(), ErrorView>(()), ok_step((), p, h)),
                sp_ignore_string(w) == then(ok_step((), p, h), sp_string_body(w.skip(p))),
            decreases w.len() - p,
        {
            let ghost mid = *self;
            let ch = match self.next_or_eof() {
                Ok(b) => b,
                Err(e) => {
                    proof {
                        lemma_then(*old(self), mid, *self, (), ok_step((), p, h), Err::<u8, ErrorView>(e@), sp_next_or_eof(mid.input()));
                        lemma_fail::<u8, ()>(*old(self), *self, e@, then(ok_step((), p, h), sp_next_or_eof(mid.input())));
                    }
                    return Err(e);
                },
            };
            proof {
                lemma_then(*old(self), mid, *self, (), ok_step((), p, h), Ok::<u8, ErrorView>(ch), sp_next_or_eof(mid.input()));
            }
            if !is_escape_char(ch) {
                proof {
                    lemma_string_body_plain(w, p);
                    lemma_retarget(*old(self), *self, ch, then(ok_step((), p, h), sp_next_or_eof(mid.input())), Ok::<(), ErrorView>(()));
                    p = p + 1;
                }
                continue;
            }
            if ch == QUOTE {
                proof {
                    lemma_retarget(*old(self), *self, ch, then(ok_step((), p, h), sp_next_or_eof(mid.input())), Ok::<(), ErrorView>(()));
                }
                return Ok(());
            } else if ch == ESCAPE {
                let ghost mid2 = *self;
                proof {
                    lemma_retarget(*old(self), mid2, ch, then(ok_step((), p, h), sp_next_or_eof(mid.input())), Ok::<(), ErrorView>(()));
                    lemma_string_body_escape(w, p);
                    assert(mid2.input() == w.skip(p + 1));
                }
                match self.ignore_escaped_char() {
                    Ok(()) => {
                        proof {
                            lemma_then(*old(self), mid2, *self, (), ok_step((), p + 1, h), Ok::<(), ErrorView>(()), sp_ignore_escaped_char(mid2.input()));
                            let e = sp_ignore_escaped_char(mid2.input());
                            p = p + 1 + e.pos;
                            h = h || e.hit_end;
                        }
                    },
                    Err(e) => {
                        proof {
                            lemma_then(*old(self), mid2, *self, (), ok_step((), p + 1, h), Err::<(), ErrorView>(e@), sp_ignore_escaped_char(mid2.input()));
                        }
                        return Err(e);
                    },
                }
            } else {
                proof {
                    lemma_retarget(*old(self), *self, ch, then(ok_step((), p, h), sp_next_or_eof(mid.input())),
                        Err::<(), ErrorView>(ErrorView::ControlCharacter(ch)));
                }
                return Err(Error::new(ErrorKind::ControlCharacter(ch)));
            }
        }
    }
}

impl Decoder {
    /// Skip a run of decimal digits.
    fn skip_digits(&mut self) -> (r: Result<(), Error>)
        ensures
            settles(*old(self), *final(self), view_result(r), sp_skip_digits(old(self).input())),
    {
        let ghost w = self.input();
        let ghost c = ByteClass::Digit;
        proof {
            lemma_scan_end_bounds(w, 0, c);
            assert(w.skip(0) =~= w);
        }
        let ghost mut m: int = 0;
        loop
            invariant
                w == old(self).input(),
                c == ByteClass::Digit,
                0 <= m <= scan_end(w, 0, c) <= w.len(),
                self.input() == w.skip(m),
                settles(*old(self), *self, Ok::<(), ErrorView>(()), ok_step((), m, false)),
            decreases w.len() - m,
        {
            proof {
                lemma_scan_end_step(w, 0, m, c);
                assert(self.input().len() == w.len() - m);
                if m < w.len() {
                    assert(self.input()[0] == w[m]);
                }
            }
            let ghost mid = *self;
            let b = match self.peek_or_null() {
                Ok(b) => b,
                Err(e) => {
                    proof {
                        lemma_then(*old(self), mid, *self, (), ok_step((), m, false), Err::<u8, ErrorView>(e@), sp_peek_or_null(mid.input()));
                    }
                    return Err(e);
                },
            };
            proof {
                lemma_then(*old(self), mid, *self, (), ok_step((), m, false), Ok::<u8, ErrorView>(b), sp_peek_or_null(mid.input()));
            }
            if !is_digit(b) {
                proof {
                    lemma_retarget(*old(self), *self, b, then(ok_step((), m, false), sp_peek_or_null(mid.input())), Ok::<(), ErrorView>(()));
                }
                return Ok(());
            }
            let ghost mid2 = *self;
            proof {
                lemma_retarget(*old(self), mid2, b, then(ok_step((), m, false), sp_peek_or_null(mid.input())), Ok::<(), ErrorView>(()));
            }
            match self.eat_char() {
                Ok(()) => {
                    proof {
                        lemma_then(*old(self), mid2, *self, (), ok_step((), m, false), Ok::<(), ErrorView>(()), sp_eat_char(mid2.input()));
                    }
                },
                Err(e) => {
                    proof {
                        lemma_then(*old(self), mid2, *self, (), ok_step((), m, false), Err::<(), ErrorView>(e@), sp_eat_char(mid2.input()));
                    }
                    return Err(e);
                },
            }
            proof {
                m = m + 1;
            }
        }
    }

    /// Skip an exponent: its marker, an optional sign and one or more digits.
    #[verifier::rlimit(40)]
    pub fn ignore_exponent(&mut self) -> (r: Result<(), Error>)
        ensures
            settles(*old(self), *final(self), view_result(r), sp_ignore_exponent(old(self).input())),
    {
        let ghost w = self.input();
        let ghost s0 = *self;
        let marker = match self.next_char() {
            Ok(m) => m,
            Err(e) => {
                return Err(e);
            },
        };
        let ghost s1 = *self;
        let ghost m_step = sp_eat_char(w);
        proof {
            lemma_retarget(s0, s1, marker, sp_next_char(w), Ok::<(), ErrorView>(()));
        }
        let sign = match self.peek_or_null() {
            Ok(b) => b,
            Err(e) => {
                proof {
                    lemma_then(s0, s1, *self, (), m_step, Err::<u8, ErrorView>(e@), sp_peek_or_null(s1.input()));
                }
                return Err(e);
            },
        };
        let ghost s2 = *self;
        proof {
            lemma_then(s0, s1, s2, (), m_step, Ok::<u8, ErrorView>(sign), sp_peek_or_null(s1.input()));
            lemma_retarget(s0, s2, sign, then(m_step, sp_peek_or_null(s1.input())), Ok::<(), ErrorView>(()));
        }
        let ghost acc = then(m_step, sp_peek_or_null(s1.input()));
        if sign == 0x2b || sign == 0x2d {
            match self.eat_char() {
                Ok(()) => {
                    proof {
                        lemma_then(s0, s2, *self, (), Step { result: Ok::<(), ErrorView>(()), pos: acc.pos, hit_end: acc.hit_end }, Ok::<(), ErrorView>(()), sp_eat_char(s2.input()));
                    }
                },
                Err(e) => {
                    proof {
                        lemma_then(s0, s2, *self, (), Step { result: Ok::<(), ErrorView>(()), pos: acc.pos, hit_end: acc.hit_end }, Err::<(), ErrorView>(e@), sp_eat_char(s2.input()));
                    }
                    return Err(e);
                },
            }
        }
        let ghost s3 = *self;
        let ghost sign_len: int = if sign == 0x2b || sign == 0x2d { 1 } else { 0 };
        let ghost acc3 = ok_step((), m_step.pos + sign_len, acc.hit_end);
        proof {
            assert(settles(s0, s3, Ok::<(), ErrorView>(()), acc3));
            assert(s3.input() == w.skip(m_step.pos).skip(sign_len)) by {
                assert(w.skip(m_step.pos + sign_len) =~= w.skip(m_step.pos).skip(sign_len));
            }
        }
        let digit = match self.next_char_or_null() {
            Ok(b) => b,
            Err(e) => {
                proof {
                    lemma_then(s0, s3, *self, (), acc3, Err::<u8, ErrorView>(e@), sp_next_char_or_null(s3.input()));
                }
                return Err(e);
            },
        };
        let ghost s4 = *self;
        proof {
            lemma_then(s0, s3, s4, (), acc3, Ok::<u8, ErrorView>(digit), sp_next_char_or_null(s3.input()));
        }
        if !is_digit(digit) {
            proof {
                lemma_retarget(s0, s4, digit, then(acc3, sp_next_char_or_null(s3.input())),
                    Err::<(), ErrorView>(ErrorView::MissingExponentDigit(digit)));
            }
            return Err(Error::new(ErrorKind::MissingExponentDigit(digit)));
        }
        let ghost acc4 = ok_step((), m_step.pos + sign_len + 1, acc.hit_end);
        proof {
            lemma_retarget(s0, s4, digit, then(acc3, sp_next_char_or_null(s3.input())), Ok::<(), ErrorView>(()));
            assert(s4.input() =~= s3.input().drop_first());
        }
        match self.skip_digits() {
            Ok(()) => {
                proof {
                    lemma_then(s0, s4, *self, (), acc4, Ok::<(), ErrorView>(()), sp_skip_digits(s4.input()));
                }
                Ok(())
            },
            Err(e) => {
                proof {
                    lemma_then(s0, s4, *self, (), acc4, Err::<(), ErrorView>(e@), sp_skip_digits(s4.input()));
                }
                Err(e)
            },
        }
    }
}

impl Decoder {
    /// Skip a fraction: its point and one or more digits, then an exponent
    /// if one comes next.
    #[verifier::rlimit(40)]
    pub fn ignore_decimal(&mut self) -> (r: Result<(), Error>)
        ensures
            settles(*old(self), *final(self), view_result(r), sp_ignore_decimal(old(self).input())),
    {
        let ghost w = self.input();
        let ghost s0 = *self;
        let point = match self.next_char() {
            Ok(m) => m,
            Err(e) => {
                return Err(e);
            },
        };
        let ghost s1 = *self;
        let ghost m_step = sp_eat_char(w);
        proof {
            lemma_retarget(s0, s1, point, sp_next_char(w), Ok::<(), ErrorView>(()));
            lemma_scan_end_bounds(s1.input(), 0, ByteClass::Digit);
        }
        let ghost v = s1.input();
        let ghost k = scan_end(v, 0, ByteClass::Digit);
        let b = match self.peek_or_null() {
            Ok(b) => b,
            Err(e) => {
                proof {
                    lemma_then(s0, s1, *self, (), m_step, Err::<u8, ErrorView>(e@), sp_peek_or_null(v));
                }
                return Err(e);
            },
        };
        proof {
            lemma_then(s0, s1, *self, (), m_step, Ok::<u8, ErrorView>(b), sp_peek_or_null(v));
            lemma_scan_end_step(v, 0, 0, ByteClass::Digit);
        }
        if !is_digit(b) {
            proof {
                lemma_retarget(s0, *self, b, then(m_step, sp_peek_or_null(v)),
                    Err::<(), ErrorView>(ErrorView::MissingFractionDigit));
            }
            return Err(Error::new(ErrorKind::MissingFractionDigit));
        }
        proof {
            lemma_retarget(s0, s1, point, sp_next_char(w), Ok::<(), ErrorView>(()));
        }
        match self.skip_digits() {
            Ok(()) => {},
            Err(e) => {
                proof {
                    assert(self.input().skip(0) =~= self.input());
                }
                return Err(e);
            },
        }
        let ghost s2 = *self;
        proof {
            assert(s1.input().skip(0) =~= s1.input());
            lemma_then(s0, s1, s2, (), m_step, Ok::<(), ErrorView>(()), sp_skip_digits(v));
            lemma_scan_end_bounds(v, 0, ByteClass::Digit);
        }
        let ghost acc = then(m_step, sp_skip_digits(v));
        let e = match self.peek_or_null() {
            Ok(b) => b,
            Err(e) => {
                proof {
                    lemma_then(s0, s2, *self, (), acc, Err::<u8, ErrorView>(e@), sp_peek_or_null(s2.input()));
                }
                return Err(e);
            },
        };
        proof {
            lemma_then(s0, s2, *self, (), acc, Ok::<u8, ErrorView>(e), sp_peek_or_null(s2.input()));
            assert(s2.input() == v.skip(k)) by {
                assert(w.skip(m_step.pos + k) =~= v.skip(k));
            }
        }
        if e == 0x65 || e == 0x45 {
            let ghost s3 = *self;
            proof {
                lemma_retarget(s0, s3, e, then(acc, sp_peek_or_null(s2.input())), Ok::<(), ErrorView>(()));
            }
            match self.ignore_exponent() {
                Ok(()) => {
                    proof {
                        lemma_then(s0, s3, *self, (), ok_step((), acc.pos, acc.hit_end), Ok::<(), ErrorView>(()), sp_ignore_exponent(s3.input()));
                    }
                    Ok(())
                },
                Err(x) => {
                    proof {
                        lemma_then(s0, s3, *self, (), ok_step((), acc.pos, acc.hit_end), Err::<(), ErrorView>(x@), sp_ignore_exponent(s3.input()));
                    }
                    Err(x)
                },
            }
        } else {
            proof {
                lemma_retarget(s0, *self, e, then(acc, sp_peek_or_null(s2.input())), Ok::<(), ErrorView>(()));
            }
            Ok(())
        }
    }

    /// Skip what follows the integer part of a number: a fraction, an
    /// exponent or nothing.
    fn ignore_number_rest(&mut self) -> (r: Result<(), Error>)
        ensures
            settles(*old(self), *final(self), view_result(r), sp_number_rest(old(self).input())),
    {
        let ghost w = self.input();
        let b = self.peek_or_null()?;
        proof {
            assert(w.skip(0) =~= w);
        }
        if b == DECIMAL {
            self.ignore_decimal()
        } else if b == 0x65 || b == 0x45 {
            self.ignore_exponent()
        } else {
            Ok(())
        }
    }

    /// Skip a number without its sign.
    #[verifier::rlimit(40)]
    pub fn ignore_number(&mut self) -> (r: Result<(), Error>)
        ensures
            settles(*old(self), *final(self), view_result(r), sp_ignore_number(old(self).input())),
            r is Ok && old(self).input().len() > 0 ==> sp_ignore_number(old(self).input()).pos >= 1,
    {
        reveal(sp_ignore_number);
        let ghost w = self.input();
        let ghost s0 = *self;
        let ch = match self.next_char_or_null() {
            Ok(c) => c,
            Err(e) => {
                return Err(e);
            },
        };
        let ghost s1 = *self;
        let ghost c_step = sp_next_char_or_null(w);
        let ghost v = s1.input();
        proof {
            lemma_scan_end_bounds(v, 0, ByteClass::Digit);
        }
        if ch == 0x30 {
            let b = match self.peek_or_null() {
                Ok(b) => b,
                Err(e) => {
                    proof {
                        lemma_then(s0, s1, *self, ch, c_step, Err::<u8, ErrorView>(e@), sp_peek_or_null(v));
                    }
                    return Err(e);
                },
            };
            proof {
                lemma_then(s0, s1, *self, ch, c_step, Ok::<u8, ErrorView>(b), sp_peek_or_null(v));
            }
            if is_digit(b) {
                proof {
                    lemma_retarget(s0, *self, b, then(c_step, sp_peek_or_null(v)), Err::<(), ErrorView>(ErrorView::LeadingZero));
                }
                return Err(Error::new(ErrorKind::LeadingZero));
            }
            let ghost s2 = *self;
            proof {
                lemma_retarget(s0, s2, b, then(c_step, sp_peek_or_null(v)), Ok::<(), ErrorView>(()));
                assert(v.skip(0) =~= v);
            }
            match self.ignore_number_rest() {
                Ok(()) => {
                    proof {
                        lemma_then(s0, s2, *self, (), ok_step((), c_step.pos, v.len() == 0), Ok::<(), ErrorView>(()), sp_number_rest(v));
                    }
                    Ok(())
                },
                Err(e) => {
                    proof {
                        lemma_then(s0, s2, *self, (), ok_step((), c_step.pos, v.len() == 0), Err::<(), ErrorView>(e@), sp_number_rest(v));
                    }
                    Err(e)
                },
            }
        } else if is_digit(ch) {
            proof {
                lemma_retarget(s0, s1, ch, c_step, Ok::<(), ErrorView>(()));
            }
            match self.skip_digits() {
                Ok(()) => {},
                Err(e) => {
                    proof {
                        lemma_then(s0, s1, *self, (), ok_step((), c_step.pos, c_step.hit_end), Err::<(), ErrorView>(e@), sp_skip_digits(v));
                    }
                    return Err(e);
                },
            }
            let ghost s2 = *self;
            let ghost k = scan_end(v, 0, ByteClass::Digit);
            proof {
                lemma_then(s0, s1, s2, (), ok_step((), c_step.pos, c_step.hit_end), Ok::<(), ErrorView>(()), sp_skip_digits(v));
                assert(s2.input() == v.skip(k)) by {
                    assert(w.skip(c_step.pos + k) =~= v.skip(k));
                }
            }
            match self.ignore_number_rest() {
                Ok(()) => {
                    proof {
                        lemma_then(s0, s2, *self, (), ok_step((), c_step.pos + k, k >= v.len()), Ok::<(), ErrorView>(()), sp_number_rest(v.skip(k)));
                    }
                    Ok(())
                },
                Err(e) => {
                    proof {
                        lemma_then(s0, s2, *self, (), ok_step((), c_step.pos + k, k >= v.len()), Err::<(), ErrorView>(e@), sp_number_rest(v.skip(k)));
                    }
                    Err(e)
                },
            }
        } else {
            let b = match self.peek_or_null() {
                Ok(b) => b,
                Err(e) => {
                    proof {
                        lemma_then(s0, s1, *self, ch, c_step, Err::<u8, ErrorView>(e@), sp_peek_or_null(v));
                    }
                    return Err(e);
                },
            };
            proof {
                lemma_then(s0, s1, *self, ch, c_step, Ok::<u8, ErrorView>(b), sp_peek_or_null(v));
                lemma_retarget(s0, *self, b, then(c_step, sp_peek_or_null(v)), Err::<(), ErrorView>(ErrorView::InvalidNumber(b)));
            }
            Err(Error::new(ErrorKind::InvalidNumber(b)))
        }
    }
}

impl Decoder {
    /// Skip one JSON value after white space; at the end of the input
    /// there is nothing to skip.
    #[verifier::rlimit(40)]
    pub fn ignore_value(&mut self) -> (r: Result<(), Error>)
        ensures
            settles(*old(self), *final(self), view_result(r), sp_ignore_value(old(self).input())),
            r is Ok && ws_len(old(self).input()) < old(self).input().len() ==> sp_ignore_value(
                old(self).input(),
            ).pos > ws_len(old(self).input()),
        decreases old(self).input().len(), 3nat,
    {
        reveal_with_fuel(sp_ignore_array, 1);
        reveal_with_fuel(sp_ignore_object, 1);
        let ghost w = self.input();
        let ghost s0 = *self;
        proof {
            lemma_scan_end_bounds(w, 0, ByteClass::Whitespace);
        }
        if let Err(e) = self.expect_whitespace() {
            return Err(e);
        }
        let ghost s1 = *self;
        let ghost j = ws_len(w);
        let ghost v = s1.input();
        let ghost ws = sp_whitespace(w);
        let filled = match self.fill(0) {
            Ok(f) => f,
            Err(e) => {
                proof {
                    lemma_then(s0, s1, *self, (), ws, Err::<bool, ErrorView>(e@), sp_fill(v, 0));
                }
                return Err(e);
            },
        };
        proof {
            lemma_then(s0, s1, *self, (), ws, Ok::<bool, ErrorView>(filled), sp_fill(v, 0));
            lemma_retarget(s0, *self, filled, then(ws, sp_fill(v, 0)), Ok::<(), ErrorView>(()));
            self.lemma_buffered_prefix();
        }
        if !filled {
            return Ok(());
        }
        let ghost s2 = *self;
        let ghost acc = ok_step((), j, false);
        proof {
            assert(s2.input() == v);
            assert(settles(s0, s2, Ok::<(), ErrorView>(()), acc));
        }
        let b = self.buffer[0];
        if b == QUOTE {
            let r = self.ignore_string();
            proof {
                lemma_then(s0, s2, *self, (), acc, view_result(r), sp_ignore_string(v));
            }
            r
        } else if b == 0x2d {
            match self.eat_char() {
                Ok(()) => {},
                Err(e) => {
                    proof {
                        lemma_then(s0, s2, *self, (), acc, Err::<(), ErrorView>(e@), sp_eat_char(v));
                    }
                    return Err(e);
                },
            }
            let ghost s3 = *self;
            proof {
                lemma_then(s0, s2, s3, (), acc, Ok::<(), ErrorView>(()), sp_eat_char(v));
                assert(s3.input() == v.drop_first());
            }
            let r = self.ignore_number();
            proof {
                lemma_then(s0, s3, *self, (), then(acc, sp_eat_char(v)), view_result(r), sp_ignore_number(v.drop_first()));
            }
            r
        } else if is_digit(b) {
            let r = self.ignore_number();
            proof {
                lemma_then(s0, s2, *self, (), acc, view_result(r), sp_ignore_number(v));
            }
            r
        } else if b == 0x74 {
            let t = literal_true();
            let r = self.ignore_exactly(t.as_slice());
            proof {
                lemma_then(s0, s2, *self, (), acc, view_result(r), sp_ignore_exactly(v, bytes_true()));
            }
            r
        } else if b == 0x66 {
            let f = literal_false();
            let r = self.ignore_exactly(f.as_slice());
            proof {
                lemma_then(s0, s2, *self, (), acc, view_result(r), sp_ignore_exactly(v, bytes_false()));
            }
            r
        } else if b == 0x6e {
            let n = literal_null();
            let r = self.ignore_exactly(n.as_slice());
            proof {
                lemma_then(s0, s2, *self, (), acc, view_result(r), sp_ignore_exactly(v, bytes_null()));
            }
            r
        } else if b == LIST_BEGIN {
            let r = self.ignore_array();
            proof {
                lemma_then(s0, s2, *self, (), acc, view_result(r), sp_ignore_array(v));
            }
            r
        } else if b == MAP_BEGIN {
            let r = self.ignore_object();
            proof {
                lemma_then(s0, s2, *self, (), acc, view_result(r), sp_ignore_object(v));
            }
            r
        } else {
            proof {
                lemma_retarget(s0, s2, (), acc, Err::<(), ErrorView>(ErrorView::UnexpectedToken(b)));
            }
            Err(Error::new(ErrorKind::UnexpectedToken(b)))
        }
    }

    /// Skip an array: its opening bracket and what follows up to the
    /// closing one. An input that ends inside the array is an error.
    pub fn ignore_array(&mut self) -> (r: Result<(), Error>)
        ensures
            settles(*old(self), *final(self), view_result(r), sp_ignore_array(old(self).input())),
            r is Ok ==> sp_ignore_array(old(self).input()).pos >= 1,
        decreases old(self).input().len(), 2nat,
    {
        reveal_with_fuel(sp_ignore_array, 1);
        let ghost w = self.input();
        match self.next_char() {
            Ok(Some(_)) => {},
            Ok(None) => {
                return Err(Error::new(ErrorKind::UnexpectedEnd));
            },
            Err(e) => {
                return Err(e);
            },
        }
        let ghost m = *self;
        proof {
            assert(w.skip(1) =~= w.drop_first());
            assert(settles(*old(self), m, Ok::<(), ErrorView>(()), ok_step((), 1, false)));
            assert(m.input() == w.drop_first());
            reveal_with_fuel(sp_ignore_array, 1);
            reveal_with_fuel(sp_array_items, 1);
            assert(sp_ignore_array(w) == then(ok_step((), 1, false), sp_array_items(w.drop_first())));
        }
        let r = self.ignore_array_rest();
        proof {
            lemma_then(*old(self), m, *self, (), ok_step((), 1, false), view_result(r), sp_array_items(m.input()));
            if r is Ok {
                assert(0 <= sp_array_items(m.input()).pos);
            }
            assert(settles(*old(self), *self, view_result(r), then(ok_step((), 1, false), sp_array_items(m.input()))));
        }
        r
    }

    /// Skip the rest of an array whose opening bracket has been
    /// consumed: its remaining items and commas, and its closing bracket.
    pub fn ignore_array_rest(&mut self) -> (r: Result<(), Error>)
        ensures
            settles(*old(self), *final(self), view_result(r), sp_array_items(old(self).input())),
        decreases old(self).input().len(), 6nat,
    {
        let ghost w = self.input();
        let ghost mut p: int = 0;
        let ghost mut h: bool = false;
        proof {
            assert(w.skip(0) =~= w);
            assert(then(ok_step((), 0, false), sp_array_items(w)) == sp_array_items(w));
        }
        loop
            invariant
                w == old(self).input(),
                0 <= p <= w.len(),
                settles(*old(self), *self, Ok::<(), ErrorView>(()), ok_step((), p, h)),
                sp_array_items(w) == then(ok_step((), p, h), sp_array_items(w.skip(p))),
            decreases w.len() - p,
        {
            reveal_with_fuel(sp_array_items, 1);
            reveal_with_fuel(sp_array_item, 1);
            let ghost m0 = *self;
            let ghost u = self.input();
            let r = self.ignore_array_item();
            proof {
                lemma_then(*old(self), m0, *self, (), ok_step((), p, h), view_result(r), sp_array_item(u));
            }
            match r {
                Ok(true) => {
                    return Ok(());
                },
                Ok(false) => {
                    proof {
                        let s = sp_array_item(u);
                        assert(u.skip(s.pos) =~= w.skip(p + s.pos));
                        p = p + s.pos;
                        h = h || s.hit_end;
                    }
                },
                Err(e) => {
                    return Err(e);
                },
            }
        }
    }

    /// Skip what comes next in an array after white space: the closing
    /// bracket (then `true`), a comma or an item (then `false`).
    #[verifier::rlimit(40)]
    fn ignore_array_item(&mut self) -> (r: Result<bool, Error>)
        ensures
            settles(*old(self), *final(self), view_result(r), sp_array_item(old(self).input())),
            r == Ok::<bool, Error>(false) ==> sp_array_item(old(self).input()).pos >= 1,
        decreases old(self).input().len(), 5nat,
    {
        reveal_with_fuel(sp_array_item, 1);
        reveal_with_fuel(sp_ignore_value, 1);
        let ghost u = self.input();
        let ghost s0 = *self;
        proof {
            lemma_scan_end_bounds(u, 0, ByteClass::Whitespace);
        }
        if let Err(e) = self.expect_whitespace() {
            return Err(e);
        }
        let ghost m1 = *self;
        let ghost j = ws_len(u);
        let ghost v = m1.input();
        let ghost acc1 = sp_whitespace(u);
        let next = match self.peek() {
            Ok(b) => b,
            Err(e) => {
                proof {
                    lemma_then(s0, m1, *self, (), acc1, Err::<Option<u8>, ErrorView>(e@), sp_peek(v));
                }
                return Err(e);
            },
        };
        proof {
            lemma_then(s0, m1, *self, (), acc1, Ok::<Option<u8>, ErrorView>(next), sp_peek(v));
        }
        let ghost m2 = *self;
        let ghost acc2 = then(acc1, sp_peek(v));
        match next {
            None => {
                proof {
                    lemma_retarget(s0, m2, next, acc2, Err::<bool, ErrorView>(ErrorView::UnexpectedEnd));
                }
                Err(Error::new(ErrorKind::UnexpectedEnd))
            },
            Some(b) => {
                proof {
                    lemma_retarget(s0, m2, next, acc2, Ok::<(), ErrorView>(()));
                }
                let ghost acc3 = ok_step((), acc2.pos, acc2.hit_end);
                if b == LIST_END || b == COMMA {
                    let r = self.eat_char();
                    proof {
                        lemma_then(s0, m2, *self, (), acc3, view_result(r), sp_eat_char(v));
                    }
                    match r {
                        Ok(()) => {
                            proof {
                                lemma_retarget(s0, *self, (), then(acc3, sp_eat_char(v)), Ok::<bool, ErrorView>(b == LIST_END));
                            }
                            Ok(b == LIST_END)
                        },
                        Err(e) => Err(e),
                    }
                } else {
                    proof {
                        lemma_scan_end_step(v, 0, 0, ByteClass::Whitespace);
                    }
                    let r = self.ignore_value();
                    proof {
                        lemma_then(s0, m2, *self, (), acc3, view_result(r), sp_ignore_value(v));
                    }
                    match r {
                        Ok(()) => {
                            proof {
                                lemma_retarget(s0, *self, (), then(acc3, sp_ignore_value(v)), Ok::<bool, ErrorView>(false));
                            }
                            Ok(false)
                        },
                        Err(e) => Err(e),
                    }
                }
            },
        }
    }

    /// Skip an object: its opening brace and what follows up to the
    /// closing one.
    pub fn ignore_object(&mut self) -> (r: Result<(), Error>)
        ensures
            settles(*old(self), *final(self), view_result(r), sp_ignore_object(old(self).input())),
            r is Ok ==> sp_ignore_object(old(self).input()).pos >= 1,
        decreases old(self).input().len(), 2nat,
    {
        reveal_with_fuel(sp_ignore_object, 1);
        let ghost w = self.input();
        match self.next_char() {
            Ok(Some(_)) => {},
            Ok(None) => {
                return Err(Error::new(ErrorKind::UnexpectedEnd));
            },
            Err(e) => {
                return Err(e);
            },
        }
        let ghost m = *self;
        proof {
            assert(w.skip(1) =~= w.drop_first());
            assert(settles(*old(self), m, Ok::<(), ErrorView>(()), ok_step((), 1, false)));
            assert(m.input() == w.drop_first());
            reveal_with_fuel(sp_ignore_object, 1);
            reveal_with_fuel(sp_object_entries, 1);
            assert(sp_ignore_object(w) == then(ok_step((), 1, false), sp_object_entries(w.drop_first())));
        }
        let r = self.ignore_object_rest();
        proof {
            lemma_then(*old(self), m, *self, (), ok_step((), 1, false), view_result(r), sp_object_entries(m.input()));
            if r is Ok {
                assert(0 <= sp_object_entries(m.input()).pos);
            }
            assert(settles(*old(self), *self, view_result(r), then(ok_step((), 1, false), sp_object_entries(m.input()))));
        }
        r
    }

    /// Skip the rest of an object whose opening brace has been
    /// consumed: its remaining entries and commas, and its closing brace.
    pub fn ignore_object_rest(&mut self) -> (r: Result<(), Error>)
        ensures
            settles(*old(self), *final(self), view_result(r), sp_object_entries(old(self).input())),
        decreases old(self).input().len(), 6nat,
    {
        let ghost w = self.input();
        let ghost mut p: int = 0;
        let ghost mut h: bool = false;
        proof {
            assert(w.skip(0) =~= w);
            assert(then(ok_step((), 0, false), sp_object_entries(w)) == sp_object_entries(w));
        }
        loop
            invariant
                w == old(self).input(),
                0 <= p <= w.len(),
                settles(*old(self), *self, Ok::<(), ErrorView>(()), ok_step((), p, h)),
                sp_object_entries(w) == then(ok_step((), p, h), sp_object_entries(w.skip(p))),
            decreases w.len() - p,
        {
            reveal_with_fuel(sp_object_entries, 1);
            reveal_with_fuel(sp_object_member, 1);
            let ghost m0 = *self;
            let ghost u = self.input();
            let r = self.ignore_object_member();
            proof {
                lemma_then(*old(self), m0, *self, (), ok_step((), p, h), view_result(r), sp_object_member(u));
            }
            match r {
                Ok(true) => {
                    return Ok(());
                },
                Ok(false) => {
                    proof {
                        let s = sp_object_member(u);
                        assert(u.skip(s.pos) =~= w.skip(p + s.pos));
                        p = p + s.pos;
                        h = h || s.hit_end;
                    }
                },
                Err(e) => {
                    return Err(e);
                },
            }
        }
    }

    /// Skip what comes next in an object after white space: the closing
    /// brace (then `true`), a comma or an entry (then `false`).
    #[verifier::rlimit(40)]
    fn ignore_object_member(&mut self) -> (r: Result<bool, Error>)
        ensures
            settles(*old(self), *final(self), view_result(r), sp_object_member(old(self).input())),
            r == Ok::<bool, Error>(false) ==> sp_object_member(old(self).input()).pos >= 1,
        decreases old(self).input().len(), 5nat,
    {
        reveal_with_fuel(sp_object_member, 1);
        reveal_with_fuel(sp_object_entry, 1);
        let ghost u = self.input();
        let ghost s0 = *self;
        proof {
            lemma_scan_end_bounds(u, 0, ByteClass::Whitespace);
        }
        if let Err(e) = self.expect_whitespace() {
            return Err(e);
        }
        let ghost m1 = *self;
        let ghost j = ws_len(u);
        let ghost v = m1.input();
        let ghost acc1 = sp_whitespace(u);
        let b = match self.peek_or_null() {
            Ok(b) => b,
            Err(e) => {
                proof {
                    lemma_then(s0, m1, *self, (), acc1, Err::<u8, ErrorView>(e@), sp_peek_or_null(v));
                }
                return Err(e);
            },
        };
        proof {
            lemma_then(s0, m1, *self, (), acc1, Ok::<u8, ErrorView>(b), sp_peek_or_null(v));
            lemma_retarget(s0, *self, b, then(acc1, sp_peek_or_null(v)), Ok::<(), ErrorView>(()));
        }
        let ghost m2 = *self;
        let ghost acc2 = ok_step((), j, v.len() == 0);
        if b == MAP_END || b == COMMA {
            let r = self.eat_char();
            proof {
                lemma_then(s0, m2, *self, (), acc2, view_result(r), sp_eat_char(v));
            }
            match r {
                Ok(()) => {
                    proof {
                        lemma_retarget(s0, *self, (), then(acc2, sp_eat_char(v)), Ok::<bool, ErrorView>(b == MAP_END));
                    }
                    Ok(b == MAP_END)
                },
                Err(e) => Err(e),
            }
        } else {
            let r = self.ignore_object_entry();
            proof {
                lemma_then(s0, m2, *self, (), acc2, view_result(r), sp_object_entry(v));
            }
            match r {
                Ok(()) => {
                    proof {
                        lemma_retarget(s0, *self, (), then(acc2, sp_object_entry(v)), Ok::<bool, ErrorView>(false));
                    }
                    Ok(false)
                },
                Err(e) => Err(e),
            }
        }
    }

    /// Skip one entry of an object: its key (a string), a colon and its value.
    #[verifier::rlimit(40)]
    fn ignore_object_entry(&mut self) -> (r: Result<(), Error>)
        ensures
            settles(*old(self), *final(self), view_result(r), sp_object_entry(old(self).input())),
            r is Ok ==> sp_object_entry(old(self).input()).pos >= 1,
        decreases old(self).input().len(), 1nat,
    {
        reveal_with_fuel(sp_object_entry, 1);
        let ghost v = self.input();
        let rk = self.ignore_string();
        if let Err(e) = rk {
            return Err(e);
        }
        let ghost m3 = *self;
        let ghost k = sp_ignore_string(v);
        let ghost uu = m3.input();
        proof {
            assert(uu == v.skip(k.pos));
            lemma_scan_end_bounds(uu, 0, ByteClass::Whitespace);
        }
        match self.expect_whitespace() {
            Ok(()) => {},
            Err(e) => {
                proof {
                    lemma_then(*old(self), m3, *self, (), k, Err::<(), ErrorView>(e@), sp_whitespace(uu));
                }
                return Err(e);
            },
        }
        let ghost m4 = *self;
        let ghost j2 = ws_len(uu);
        let ghost x = m4.input();
        let ghost acc4 = then(k, sp_whitespace(uu));
        proof {
            lemma_then(*old(self), m3, m4, (), k, Ok::<(), ErrorView>(()), sp_whitespace(uu));
            assert(x == uu.skip(j2));
        }
        let colon: [u8; 1] = [COLON];
        let rc = self.ignore_exactly(colon.as_slice());
        proof {
            assert(colon@ =~= seq![COLON]);
            lemma_then(*old(self), m4, *self, (), acc4, view_result(rc), sp_ignore_exactly(x, colon@));
        }
        if let Err(e) = rc {
            return Err(e);
        }
        let ghost m5 = *self;
        let ghost c = sp_ignore_exactly(x, colon@);
        let ghost y = m5.input();
        let ghost acc5 = then(acc4, c);
        proof {
            assert(y == x.skip(c.pos));
        }
        let rv = self.ignore_value();
        proof {
            lemma_then(*old(self), m5, *self, (), acc5, view_result(rv), sp_ignore_value(y));
        }
        rv
    }

}

/// A result whose value is a byte buffer, taken by its view.
pub open spec fn bytes_result(r: Result<Vec<u8>, Error>) -> Result<Seq<u8>, ErrorView> {
    match r {
        Ok(v) => Ok(v@),
        Err(e) => Err(e@),
    }
}

/// A result whose value is text, taken by its view.
pub open spec fn string_result(r: Result<String, Error>) -> Result<Seq<char>, ErrorView> {
    match r {
        Ok(s) => Ok(s@),
        Err(e) => Err(e@),
    }
}

/// The value of the four hex digits at `i` of the first `n` bytes of
/// `buf`, where there are four.
fn hex4_at(buf: &Vec<u8>, n: usize, i: usize) -> (r: Option<u32>)
    requires
        n <= buf.len(),
    ensures
        hex4(buf@.take(n as int), i as int) == match r {
            Some(x) => Some(x as int),
            None => None::<int>,
        },
        r matches Some(x) ==> x < 0x10000,
{
    let ghost b = buf@.take(n as int);
    if i > n || n - i < 4 {
        return None;
    }
    proof {
        assert(b[i as int] == buf@[i as int]);
        assert(b[i + 1] == buf@[i + 1]);
        assert(b[i + 2] == buf@[i + 2]);
        assert(b[i + 3] == buf@[i + 3]);
    }
    match (
        decode_hex_val(buf[i]),
        decode_hex_val(buf[i + 1]),
        decode_hex_val(buf[i + 2]),
        decode_hex_val(buf[i + 3]),
    ) {
        (Some(a), Some(c), Some(d), Some(e)) => Some(
            a as u32 * 4096 + c as u32 * 256 + d as u32 * 16 + e as u32,
        ),
        _ => None,
    }
}

/// The byte that a backslash followed by `b` stands for, where `b` is one
/// of the escapes of JSON that stand for a single byte.
pub fn simple_escape(b: u8) -> (r: Option<u8>)
    ensures
        r == simple_escape_byte(b),
{
    if b == QUOTE || b == ESCAPE || b == 0x2f {
        Some(b)
    } else if b == 0x62 {
        Some(0x08)
    } else if b == 0x66 {
        Some(0x0c)
    } else if b == 0x6e {
        Some(0x0a)
    } else if b == 0x72 {
        Some(0x0d)
    } else if b == 0x74 {
        Some(0x09)
    } else {
        None
    }
}

/// Append the UTF-8 encoding of the character `c` to `out`.
pub fn push_scalar(out: &mut Vec<u8>, c: u32)
    requires
        is_scalar(c),
    ensures
        final(out)@ == old(out)@ + encode_scalar(c),
{
    if c <= 0x7f {
        out.push((c & 0x7f) as u8);
    } else if c <= 0x7ff {
        out.push(0xc0 | ((c >> 6) & 0x1f) as u8);
        out.push(0x80 | (c & 0x3f) as u8);
    } else if c <= 0xffff {
        out.push(0xe0 | ((c >> 12) & 0x0f) as u8);
        out.push(0x80 | ((c >> 6) & 0x3f) as u8);
        out.push(0x80 | (c & 0x3f) as u8);
    } else {
        out.push(0xf0 | ((c >> 18) & 0x7) as u8);
        out.push(0x80 | ((c >> 12) & 0x3f) as u8);
        out.push(0x80 | ((c >> 6) & 0x3f) as u8);
        out.push(0x80 | (c & 0x3f) as u8);
    }
    assert(final(out)@ =~= old(out)@ + encode_scalar(c));
}

/// Prepending in two steps prepends the two parts together.
proof fn lemma_prepend_prepend(p: Seq<u8>, q: Seq<u8>, r: Result<Seq<u8>, ErrorView>)
    ensures
        prepend(p, prepend(q, r)) == prepend(p + q, r),
{
    if r is Ok {
        assert(p + (q + r->Ok_0) =~= (p + q) + r->Ok_0);
    }
}

/// The bytes that the first `n` bytes of `buf`, a string's body, stand for.
#[verifier::rlimit(60)]
fn unescape_prefix(buf: &Vec<u8>, n: usize) -> (r: Result<Vec<u8>, Error>)
    requires
        n <= buf.len(),
    ensures
        bytes_result(r) == unescape(buf@.take(n as int)),
{
    let ghost b = buf@.take(n as int);
    let mut out: Vec<u8> = Vec::new();
    let mut k: usize = 0;
    proof {
        assert(b.skip(0) =~= b);
        assert(out@ + Seq::<u8>::empty() =~= Seq::<u8>::empty());
        assert(prepend(out@, unescape(b)) == unescape(b)) by {
            if unescape(b) is Ok {
                assert(out@ + unescape(b)->Ok_0 =~= unescape(b)->Ok_0);
            }
        }
    }
    while k < n
        invariant
            k <= n <= buf.len(),
            b == buf@.take(n as int),
            unescape(b) == prepend(out@, unescape(b.skip(k as int))),
        decreases n - k,
    {
        let ghost s = b.skip(k as int);
        let ghost o = out@;
        assert(s[0] == buf@[k as int]);
        let c = buf[k];
        if c != ESCAPE {
            proof {
                assert(s.drop_first() =~= b.skip(k + 1));
                lemma_prepend_prepend(o, seq![c], unescape(s.drop_first()));
                assert(o + seq![c] =~= o.push(c));
            }
            out.push(c);
            k = k + 1;
        } else if n - k < 2 {
            return Err(Error::new(ErrorKind::InvalidEscape));
        } else {
            assert(s[1] == buf@[k + 1]);
            let e = buf[k + 1];
            if e != 0x75 {
                match simple_escape(e) {
                    Some(x) => {
                        proof {
                            assert(s.skip(2) =~= b.skip(k + 2));
                            lemma_prepend_prepend(o, seq![x], unescape(s.skip(2)));
                            assert(o + seq![x] =~= o.push(x));
                        }
                        out.push(x);
                        k = k + 2;
                    },
                    None => {
                        return Err(Error::new(ErrorKind::InvalidEscape));
                    },
                }
            } else {
                proof {
                    assert(hex4(s, 2) == hex4(b, k + 2));
                }
                match hex4_at(buf, n, k + 2) {
                    None => {
                        return Err(Error::new(ErrorKind::InvalidHexEscape));
                    },
                    Some(hi) => {
                        if 0xdc00 <= hi && hi < 0xe000 {
                            return Err(Error::new(ErrorKind::LoneSurrogate));
                        }
                        if hi < 0xd800 || 0xe000 <= hi {
                            proof {
                                assert(s.skip(6) =~= b.skip(k + 6));
                                lemma_prepend_prepend(o, encode_scalar(hi), unescape(s.skip(6)));
                            }
                            push_scalar(&mut out, hi);
                            k = k + 6;
                        } else {
                            if n - k < 8 || buf[k + 6] != ESCAPE || buf[k + 7] != 0x75 {
                                proof {
                                    if n - k >= 8 {
                                        assert(s[6] == buf@[k + 6]);
                                        assert(s[7] == buf@[k + 7]);
                                    }
                                }
                                return Err(Error::new(ErrorKind::LoneSurrogate));
                            }
                            proof {
                                assert(s[6] == buf@[k + 6]);
                                assert(s[7] == buf@[k + 7]);
                                assert(hex4(s, 8) == hex4(b, k + 8));
                            }
                            match hex4_at(buf, n, k + 8) {
                                None => {
                                    return Err(Error::new(ErrorKind::InvalidHexEscape));
                                },
                                Some(lo) => {
                                    if 0xdc00 <= lo && lo < 0xe000 && n - k >= 12 {
                                        let c: u32 = 0x10000 + (hi - 0xd800) * 0x400 + (lo - 0xdc00);
                                        proof {
                                            assert(c as int == 0x10000 + (hi - 0xd800) * 0x400 + (lo - 0xdc00));
                                            assert(s.skip(12) =~= b.skip(k + 12));
                                            lemma_prepend_prepend(o, encode_scalar(c), unescape(s.skip(12)));
                                        }
                                        push_scalar(&mut out, c);
                                        k = k + 12;
                                    } else {
                                        return Err(Error::new(ErrorKind::LoneSurrogate));
                                    }
                                },
                            }
                        }
                    },
                }
            }
        }
    }
    proof {
        assert(b.skip(k as int) =~= Seq::<u8>::empty());
        assert(out@ + Seq::<u8>::empty() =~= out@);
    }
    Ok(out)
}

impl Decoder {
    /// Read a quoted string: its opening quote, its body up to the quote
    /// that no backslash escapes, and that quote. What is returned is what
    /// the body stands for, its escapes replaced.
    #[verifier::rlimit(40)]
    pub fn buffer_string(&mut self) -> (r: Result<Vec<u8>, Error>)
        ensures
            settles(*old(self), *final(self), bytes_result(r), sp_buffer_string(old(self).input())),
    {
        let ghost w = self.input();
        let ghost s0 = *self;
        match self.expect_delimiter(QUOTE) {
            Ok(()) => {},
            Err(e) => {
                proof {
                    lemma_fail::<(), Seq<u8>>(s0, *self, e@, sp_expect_delimiter(w, QUOTE));
                    assert(sp_buffer_string(w) == fail::<(), Seq<u8>>(sp_expect_delimiter(w, QUOTE)));
                }
                return Err(e);
            },
        }
        let ghost s1 = *self;
        let ghost v = s1.input();
        proof {
            assert(v =~= w.drop_first());
            lemma_close_index_bounds(v, 0);
        }
        let mut i: usize = 0;
        let mut esc = false;
        loop
            invariant
                w == s0.input(),
                s0 == *old(self),
                w.len() > 0 && w[0] == QUOTE,
                v == w.drop_first(),
                self.input() == v,
                self.rest() == s0.rest(),
                self.terminated() == s0.terminated(),
                self.source_open() == s0.source_open(),
                i <= v.len(),
                esc == escaped(v, i as int),
                close_index(v, 0) == close_index(v, i as int),
            ensures
                i < v.len(),
                i < self.buffered().len(),
                v[i as int] == QUOTE,
                !escaped(v, i as int),
                self.input() == v,
                self.rest() == s0.rest(),
                self.terminated() == s0.terminated(),
                self.source_open() == s0.source_open(),
                close_index(v, 0) == close_index(v, i as int),
            decreases v.len() - i,
        {
            let filled = match self.fill(i) {
                Ok(f) => f,
                Err(e) => {
                    proof {
                        lemma_close_index_bounds(v, i as int);
                    }
                    return Err(e);
                },
            };
            if !filled {
                proof {
                    lemma_close_index_bounds(v, i as int);
                    assert(s0.input().skip(1) =~= v);
                }
                return Err(Error::new(ErrorKind::UnexpectedEnd));
            }
            proof {
                self.lemma_buffered_prefix();
                assert(i < self.buffered().len());
                assert(self.buffer@[i as int] == v[i as int]);
            }
            if self.buffer[i] == QUOTE && !esc {
                break;
            }
            proof {
                lemma_close_index_step(v, i as int);
            }
            if esc {
                esc = false;
            } else if self.buffer[i] == ESCAPE {
                esc = true;
            }
            assert(i < self.buffer.len());
            i = i + 1;
        }
        proof {
            self.lemma_buffered_prefix();
            assert(self.buffer@.take(i as int) =~= v.take(i as int));
            assert(close_index(v, i as int) == i);
        }
        assert(i < self.buffer.len());
        let out = unescape_prefix(&self.buffer, i);
        let ghost s2 = *self;
        self.consume(i + 1);
        proof {
            assert(w.skip(i + 2) =~= v.skip(i + 1));
            let sp = sp_buffer_string(w);
            assert(close_index(v, 0) == i);
            assert(bytes_result(out) == unescape(v.take(i as int)));
            assert(sp.pos == i + 2);
            assert(!sp.hit_end);
            assert(sp.result == bytes_result(out));
            assert(self.input() == w.skip(sp.pos));
            lemma_unescape_errors(v.take(i as int));
            assert(snippet_result(sp.result, self.input()) == sp.result);
        }
        out
    }

    /// Read a quoted string as text.
    pub fn parse_string(&mut self) -> (r: Result<String, Error>)
        ensures
            settles(*old(self), *final(self), string_result(r), sp_parse_string(old(self).input())),
    {
        let bytes = self.buffer_string()?;
        match utf8_string(bytes) {
            Some(s) => Ok(s),
            None => Err(Error::new(ErrorKind::InvalidUtf8)),
        }
    }
}


/// A result whose value is an integer, taken as a mathematical integer.
pub open spec fn i128_result(r: Result<i128, Error>) -> Result<int, ErrorView> {
    match r {
        Ok(n) => Ok(n as int),
        Err(e) => Err(e@),
    }
}

impl Decoder {
    /// The first `n` bytes of the buffer.
    fn buffered_prefix(&self, n: usize) -> (r: Vec<u8>)
        requires
            n <= self.buffered().len(),
        ensures
            r@ == self.buffered().take(n as int),
    {
        let mut out: Vec<u8> = Vec::new();
        let mut k: usize = 0;
        while k < n
            invariant
                n <= self.buffer@.len(),
                k <= n,
                out@ =~= self.buffer@.take(k as int),
            decreases n - k,
        {
            out.push(self.buffer[k]);
            k = k + 1;
        }
        out
    }

    /// Read the number token after white space as an integer in
    /// `[min, max]`; only a signed reading takes a leading `-` for a sign.
    /// The token is consumed only where it is such an integer.
    #[verifier::rlimit(40)]
    pub fn parse_integer(&mut self, signed: bool, min: i128, max: i128) -> (r: Result<i128, Error>)
        requires
            -(MAGNITUDE_CAP as int) <= min,
            max <= MAGNITUDE_CAP,
        ensures
            settles(*old(self), *final(self), i128_result(r), sp_parse_integer(old(self).input(), signed, min as int, max as int)),
    {
        let ghost w = self.input();
        let ghost s0 = *self;
        proof {
            lemma_scan_end_bounds(w, 0, ByteClass::Whitespace);
        }
        if let Err(e) = self.expect_whitespace() {
            return Err(e);
        }
        let ghost s1 = *self;
        let ghost v = s1.input();
        let ghost j = ws_len(w);
        proof {
            lemma_scan_end_bounds(v, 0, ByteClass::Numeric);
        }
        let n = match self.buffer_while(ByteClass::Numeric) {
            Ok(n) => n,
            Err(e) => {
                return Err(e);
            },
        };
        proof {
            self.lemma_buffered_prefix();
            assert(v.skip(0) =~= v);
        }
        let token = self.buffered_prefix(n);
        proof {
            assert(token@ =~= v.take(n as int));
        }
        match token_integer(&token, signed, min, max) {
            Some(x) => {
                self.consume(n);
                proof {
                    assert(w.skip(j + n) =~= v.skip(n as int));
                }
                Ok(x)
            },
            None => Err(Error::new(ErrorKind::InvalidInteger(token))),
        }
    }

    /// Read the number token after white space as an `i8`.
    pub fn parse_i8(&mut self) -> (r: Result<i8, Error>)
        ensures
            settles(*old(self), *final(self), match r { Ok(x) => Ok::<int, ErrorView>(x as int), Err(e) => Err(e@) },
                sp_parse_integer(old(self).input(), true, i8::MIN as int, i8::MAX as int)),
    {
        match self.parse_integer(true, -128, 127) {
            Ok(x) => Ok(x as i8),
            Err(e) => Err(e),
        }
    }

    /// Read the number token after white space as an `i16`.
    pub fn parse_i16(&mut self) -> (r: Result<i16, Error>)
        ensures
            settles(*old(self), *final(self), match r { Ok(x) => Ok::<int, ErrorView>(x as int), Err(e) => Err(e@) },
                sp_parse_integer(old(self).input(), true, i16::MIN as int, i16::MAX as int)),
    {
        match self.parse_integer(true, -32768, 32767) {
            Ok(x) => Ok(x as i16),
            Err(e) => Err(e),
        }
    }

    /// Read the number token after white space as an `i32`.
    pub fn parse_i32(&mut self) -> (r: Result<i32, Error>)
        ensures
            settles(*old(self), *final(self), match r { Ok(x) => Ok::<int, ErrorView>(x as int), Err(e) => Err(e@) },
                sp_parse_integer(old(self).input(), true, i32::MIN as int, i32::MAX as int)),
    {
        match self.parse_integer(true, -2147483648, 2147483647) {
            Ok(x) => Ok(x as i32),
            Err(e) => Err(e),
        }
    }

    /// Read the number token after white space as an `i64`.
    pub fn parse_i64(&mut self) -> (r: Result<i64, Error>)
        ensures
            settles(*old(self), *final(self), match r { Ok(x) => Ok::<int, ErrorView>(x as int), Err(e) => Err(e@) },
                sp_parse_integer(old(self).input(), true, i64::MIN as int, i64::MAX as int)),
    {
        match self.parse_integer(true, -9223372036854775808, 9223372036854775807) {
            Ok(x) => Ok(x as i64),
            Err(e) => Err(e),
        }
    }

    /// Read the number token after white space as a `u8`.
    pub fn parse_u8(&mut self) -> (r: Result<u8, Error>)
        ensures
            settles(*old(self), *final(self), match r { Ok(x) => Ok::<int, ErrorView>(x as int), Err(e) => Err(e@) },
                sp_parse_integer(old(self).input(), false, 0, u8::MAX as int)),
    {
        match self.parse_integer(false, 0, 255) {
            Ok(x) => Ok(x as u8),
            Err(e) => Err(e),
        }
    }

    /// Read the number token after white space as a `u16`.
    pub fn parse_u16(&mut self) -> (r: Result<u16, Error>)
        ensures
            settles(*old(self), *final(self), match r { Ok(x) => Ok::<int, ErrorView>(x as int), Err(e) => Err(e@) },
                sp_parse_integer(old(self).input(), false, 0, u16::MAX as int)),
    {
        match self.parse_integer(false, 0, 65535) {
            Ok(x) => Ok(x as u16),
            Err(e) => Err(e),
        }
    }

    /// Read the number token after white space as a `u32`.
    pub fn parse_u32(&mut self) -> (r: Result<u32, Error>)
        ensures
            settles(*old(self), *final(self), match r { Ok(x) => Ok::<int, ErrorView>(x as int), Err(e) => Err(e@) },
                sp_parse_integer(old(self).input(), false, 0, u32::MAX as int)),
    {
        match self.parse_integer(false, 0, 4294967295) {
            Ok(x) => Ok(x as u32),
            Err(e) => Err(e),
        }
    }

    /// Read the number token after white space as a `u64`.
    pub fn parse_u64(&mut self) -> (r: Result<u64, Error>)
        ensures
            settles(*old(self), *final(self), match r { Ok(x) => Ok::<int, ErrorView>(x as int), Err(e) => Err(e@) },
                sp_parse_integer(old(self).input(), false, 0, u64::MAX as int)),
    {
        match self.parse_integer(false, 0, 18446744073709551615) {
            Ok(x) => Ok(x as u64),
            Err(e) => Err(e),
        }
    }

    /// The number token after white space, left in the buffer: the run of
    /// bytes that may occur in a number.
    pub fn number_token(&mut self) -> (r: Result<Vec<u8>, Error>)
        ensures
            settles(*old(self), *final(self), bytes_result(r), sp_number_token(old(self).input())),
            r matches Ok(t) ==> t@.len() <= final(self).buffered().len(),
    {
        let ghost w = self.input();
        proof {
            lemma_scan_end_bounds(w, 0, ByteClass::Whitespace);
        }
        self.expect_whitespace()?;
        let ghost v = self.input();
        proof {
            lemma_scan_end_bounds(v, 0, ByteClass::Numeric);
        }
        let n = self.buffer_while(ByteClass::Numeric)?;
        proof {
            self.lemma_buffered_prefix();
            assert(v.skip(0) =~= v);
        }
        let token = self.buffered_prefix(n);
        proof {
            assert(token@ =~= v.take(n as int));
        }
        Ok(token)
    }

    /// Whether the number that starts the buffer is read as a float: a `.`,
    /// `e` or `E` comes before any byte that cannot be part of a number.
    fn number_is_float(&mut self) -> (r: Result<bool, Error>)
        requires
            old(self).buffered().len() > 0,
        ensures
            settles(*old(self), *final(self), view_result(r), sp_number_is_float(old(self).input())),
    {
        let ghost w = self.input();
        let ghost t = self.terminated();
        let ghost c = ByteClass::IntegerLike;
        proof {
            self.lemma_buffered_prefix();
            lemma_scan_end_bounds(w, 0, c);
            assert(w.skip(0) =~= w);
        }
        let mut i: usize = 0;
        loop
            invariant
                w == old(self).input(),
                t == old(self).terminated(),
                c == ByteClass::IntegerLike,
                self.input() == w,
                self.rest() == old(self).rest(),
                self.terminated() == t,
                self.source_open() == old(self).source_open(),
                i < self.buffered().len(),
                i <= scan_end(w, 0, c) <= w.len(),
                w.skip(0) == w,
            decreases w.len() - i,
        {
            proof {
                self.lemma_buffered_prefix();
                lemma_scan_end_step(w, 0, i as int, c);
                assert(self.buffer@[i as int] == w[i as int]);
            }
            assert(i < self.buffer.len());
            let b = self.buffer[i];
            if b == DECIMAL || b == EXPONENT || b == EXPONENT_UPPER {
                return Ok(true);
            }
            if !is_numeric(b) {
                return Ok(false);
            }
            i = i + 1;
            let filled = match self.fill(i) {
                Ok(f) => f,
                Err(e) => {
                    return Err(e);
                },
            };
            if !filled {
                return Ok(false);
            }
        }
    }

    /// Tell what kind of value comes after white space, without consuming
    /// it: the first bytes decide.
    #[verifier::rlimit(40)]
    pub fn value_kind(&mut self) -> (r: Result<ValueKind, Error>)
        ensures
            settles(*old(self), *final(self), view_result(r), sp_value_kind(old(self).input())),
    {
        let ghost w = self.input();
        let ghost s0 = *self;
        proof {
            lemma_scan_end_bounds(w, 0, ByteClass::Whitespace);
        }
        self.expect_whitespace()?;
        let ghost s1 = *self;
        let ghost v = s1.input();
        let ghost j = ws_len(w);
        let filled = self.fill(0)?;
        proof {
            self.lemma_buffered_prefix();
            assert(v.skip(0) =~= v);
        }
        if !filled {
            return Err(Error::new(ErrorKind::UnexpectedEnd));
        }
        let b = self.buffer[0];
        if b == QUOTE {
            Ok(ValueKind::String)
        } else if b == LIST_BEGIN {
            Ok(ValueKind::Array)
        } else if b == MAP_BEGIN {
            Ok(ValueKind::Object)
        } else if starts_number(b) {
            let float = self.number_is_float()?;
            if float {
                Ok(ValueKind::Float)
            } else {
                Ok(ValueKind::Integer)
            }
        } else {
            let t = literal_true();
            let n = literal_null();
            let f = literal_false();
            self.fill(3)?;
            proof {
                lemma_buffer_starts_with(*self, bytes_true());
                lemma_buffer_starts_with(*self, bytes_null());
            }
            if self.buffer_starts_with(t.as_slice()) {
                return Ok(ValueKind::Bool);
            }
            if self.buffer_starts_with(n.as_slice()) {
                return Ok(ValueKind::Null);
            }
            self.fill(4)?;
            proof {
                lemma_buffer_starts_with(*self, bytes_false());
            }
            if self.buffer_starts_with(f.as_slice()) {
                return Ok(ValueKind::Bool);
            }
            let contents = self.quote_input()?;
            Err(Error::new(ErrorKind::InvalidAny(contents)))
        }
    }
}


impl Decoder {
    /// Open a container after white space: its opening delimiter `open`,
    /// white space, and its closing delimiter `close` if that comes next;
    /// whether the container is already done.
    #[verifier::rlimit(40)]
    pub fn begin(&mut self, open: u8, close: u8) -> (r: Result<bool, Error>)
        ensures
            settles(*old(self), *final(self), view_result(r), sp_begin(old(self).input(), open, close)),
    {
        let ghost w = self.input();
        let ghost s0 = *self;
        proof {
            lemma_scan_end_bounds(w, 0, ByteClass::Whitespace);
        }
        self.expect_whitespace()?;
        let ghost s1 = *self;
        let ghost a = sp_whitespace(w);
        let ghost v1 = s1.input();
        match self.expect_delimiter(open) {
            Ok(()) => {},
            Err(e) => {
                proof {
                    lemma_then(s0, s1, *self, (), a, Err::<(), ErrorView>(e@), sp_expect_delimiter(v1, open));
                }
                return Err(e);
            },
        }
        let ghost s2 = *self;
        let ghost d = sp_expect_delimiter(v1, open);
        let ghost v2 = s2.input();
        proof {
            lemma_then(s0, s1, s2, (), a, Ok::<(), ErrorView>(()), d);
            lemma_scan_end_bounds(v2, 0, ByteClass::Whitespace);
        }
        match self.expect_whitespace() {
            Ok(()) => {},
            Err(e) => {
                proof {
                    lemma_then(s0, s2, *self, (), then(a, d), Err::<(), ErrorView>(e@), sp_whitespace(v2));
                }
                return Err(e);
            },
        }
        let ghost s3 = *self;
        let ghost b = sp_whitespace(v2);
        proof {
            lemma_then(s0, s2, s3, (), then(a, d), Ok::<(), ErrorView>(()), b);
        }
        let r = self.maybe_delimiter(close);
        proof {
            lemma_then(s0, s3, *self, (), then(then(a, d), b), view_result(r), sp_maybe_delimiter(s3.input(), close));
            assert(v1.skip(d.pos) == v2);
            assert(v2.skip(b.pos) == s3.input());
        }
        r
    }

    /// What follows a map key: white space, a colon and white space.
    #[verifier::rlimit(40)]
    pub fn after_key(&mut self) -> (r: Result<(), Error>)
        ensures
            settles(*old(self), *final(self), view_result(r), sp_after_key(old(self).input())),
    {
        let ghost w = self.input();
        let ghost s0 = *self;
        proof {
            lemma_scan_end_bounds(w, 0, ByteClass::Whitespace);
        }
        self.expect_whitespace()?;
        let ghost s1 = *self;
        let ghost a = sp_whitespace(w);
        let ghost v1 = s1.input();
        match self.expect_delimiter(COLON) {
            Ok(()) => {},
            Err(e) => {
                proof {
                    lemma_then(s0, s1, *self, (), a, Err::<(), ErrorView>(e@), sp_expect_delimiter(v1, COLON));
                }
                return Err(e);
            },
        }
        let ghost s2 = *self;
        let ghost d = sp_expect_delimiter(v1, COLON);
        let ghost v2 = s2.input();
        proof {
            lemma_then(s0, s1, s2, (), a, Ok::<(), ErrorView>(()), d);
            lemma_scan_end_bounds(v2, 0, ByteClass::Whitespace);
        }
        let r = self.expect_whitespace();
        proof {
            lemma_then(s0, s2, *self, (), then(a, d), view_result(r), sp_whitespace(v2));
            assert(v1.skip(d.pos) == v2);
        }
        r
    }

    /// What follows an element of a container: white space, then either
    /// the closing delimiter `close` (then `true`: the container is done)
    /// or a comma.
    #[verifier::rlimit(40)]
    pub fn after_item(&mut self, close: u8) -> (r: Result<bool, Error>)
        ensures
            settles(*old(self), *final(self), view_result(r), sp_after_item(old(self).input(), close)),
    {
        let ghost w = self.input();
        let ghost s0 = *self;
        proof {
            lemma_scan_end_bounds(w, 0, ByteClass::Whitespace);
        }
        self.expect_whitespace()?;
        let ghost s1 = *self;
        let ghost a = sp_whitespace(w);
        let ghost v1 = s1.input();
        let done = match self.maybe_delimiter(close) {
            Ok(d) => d,
            Err(e) => {
                proof {
                    lemma_then(s0, s1, *self, (), a, Err::<bool, ErrorView>(e@), sp_maybe_delimiter(v1, close));
                }
                return Err(e);
            },
        };
        let ghost s2 = *self;
        let ghost m = sp_maybe_delimiter(v1, close);
        proof {
            lemma_then(s0, s1, s2, (), a, Ok::<bool, ErrorView>(done), m);
        }
        if done {
            return Ok(true);
        }
        proof {
            lemma_retarget(s0, s2, done, then(a, m), Ok::<(), ErrorView>(()));
        }
        let ghost acc = Step { result: Ok::<(), ErrorView>(()), pos: a.pos + m.pos, hit_end: a.hit_end || m.hit_end };
        match self.expect_delimiter(COMMA) {
            Ok(()) => {
                proof {
                    lemma_then(s0, s2, *self, (), acc, Ok::<(), ErrorView>(()), sp_expect_delimiter(s2.input(), COMMA));
                    lemma_retarget(s0, *self, (), then(acc, sp_expect_delimiter(s2.input(), COMMA)), Ok::<bool, ErrorView>(false));
                    assert(v1.skip(m.pos) == s2.input());
                }
                Ok(false)
            },
            Err(e) => {
                proof {
                    lemma_then(s0, s2, *self, (), acc, Err::<(), ErrorView>(e@), sp_expect_delimiter(s2.input(), COMMA));
                    assert(v1.skip(m.pos) == s2.input());
                }
                Err(e)
            },
        }
    }

    /// Skip the rest of an object after the key and colon of an entry: that
    /// entry's value, then the entries that follow it and the closing brace.
    pub fn ignore_object_value_rest(&mut self) -> (r: Result<(), Error>)
        ensures
            settles(*old(self), *final(self), view_result(r), sp_object_value_rest(old(self).input())),
    {
        let ghost w = self.input();
        let ghost v = sp_ignore_value(w);
        match self.ignore_value() {
            Ok(()) => {},
            Err(e) => {
                return Err(e);
            },
        }
        let ghost m1 = *self;
        let ghost a = sp_after_item(m1.input(), MAP_END);
        let ar = self.after_item(MAP_END);
        proof {
            lemma_then(*old(self), m1, *self, (), v, view_result(ar), a);
            assert(m1.input() == w.skip(v.pos));
        }
        match ar {
            Ok(true) => {
                proof {
                    assert(settles(m1, *self, Ok::<(), ErrorView>(()), ok_step((), a.pos, a.hit_end)));
                    lemma_then(*old(self), m1, *self, (), v, Ok::<(), ErrorView>(()), ok_step((), a.pos, a.hit_end));
                }
                Ok(())
            },
            Ok(false) => {
                let ghost m2 = *self;
                proof {
                    assert(settles(m1, m2, Ok::<(), ErrorView>(()), ok_step((), a.pos, a.hit_end)));
                    lemma_then(*old(self), m1, m2, (), v, Ok::<(), ErrorView>(()), ok_step((), a.pos, a.hit_end));
                    assert(m2.input() == m1.input().skip(a.pos));
                }
                let r = self.ignore_object_rest();
                proof {
                    lemma_then(m1, m2, *self, (), ok_step((), a.pos, a.hit_end), view_result(r),
                        sp_object_entries(m2.input()));
                    lemma_then(*old(self), m1, *self, (), v, view_result(r),
                        then(ok_step((), a.pos, a.hit_end), sp_object_entries(m2.input())));
                }
                r
            },
            Err(e) => {
                proof {
                    assert(settles(m1, *self, Err::<(), ErrorView>(e@), err_step(a.result->Err_0, a.pos, a.hit_end)));
                    lemma_then(*old(self), m1, *self, (), v, Err::<(), ErrorView>(e@), err_step(a.result->Err_0, a.pos, a.hit_end));
                }
                Err(e)
            },
        }
    }

    /// The end of a document: white space, after which the input must end.
    pub fn finish(&mut self) -> (r: Result<(), Error>)
        ensures
            settles(*old(self), *final(self), view_result(r), sp_finish(old(self).input())),
    {
        let ghost w = self.input();
        proof {
            lemma_scan_end_bounds(w, 0, ByteClass::Whitespace);
        }
        self.expect_whitespace()?;
        if !self.fill(0)? {
            Ok(())
        } else {
            let snippet = self.quote_input()?;
            Err(Error::new(ErrorKind::TrailingContent(snippet)))
        }
    }
}


/// Whether every chunk holds bytes, none a failure.
pub open spec fn all_ok(cs: Seq<Result<Vec<u8>, String>>) -> bool {
    forall|i: int| 0 <= i < cs.len() ==> #[trigger] cs[i] is Ok
}

/// The bytes of the chunks, one after the other.
pub open spec fn flatten(cs: Seq<Result<Vec<u8>, String>>) -> Seq<u8>
    decreases cs.len(),
{
    if cs.len() == 0 {
        Seq::empty()
    } else {
        match cs[0] {
            Ok(d) => d@ + flatten(cs.drop_first()),
            Err(_) => flatten(cs.drop_first()),
        }
    }
}

/// A stream without failures delivers all its bytes, and no failure lies
/// ahead of a decoder of it.
pub proof fn law_stream_without_failures(cs: Seq<Result<Vec<u8>, String>>)
    requires
        all_ok(cs),
    ensures
        data_prefix(cs) == flatten(cs),
        failure_tail(cs).len() == 0,
    decreases cs.len(),
{
    if cs.len() > 0 {
        assert(cs[0] is Ok);
        assert(all_ok(cs.drop_first())) by {
            assert forall|i: int| 0 <= i < cs.drop_first().len() implies #[trigger] cs.drop_first()[i] is Ok by {
                assert(cs.drop_first()[i] == cs[i + 1]);
            }
        }
        law_stream_without_failures(cs.drop_first());
    }
}

/// How a stream is cut into chunks does not change what is read from it:
/// two decoders with the same input, neither of which meets a failure of
/// its stream and both of whose streams have ended or both not, give the
/// same result in the same operation, errors and the snippets they quote
/// included, and are left with the same input.
pub proof fn law_chunking<V>(
    d1: Decoder,
    e1: Decoder,
    r1: Result<V, ErrorView>,
    d2: Decoder,
    e2: Decoder,
    r2: Result<V, ErrorView>,
    s: Step<V>,
)
    requires
        d1.input() == d2.input(),
        d1.terminated() == d2.terminated(),
        !d1.blocked(),
        !d2.blocked(),
        settles(d1, e1, r1, s),
        settles(d2, e2, r2, s),
    ensures
        r1 == r2,
        e1.input() == e2.input(),
        e1.terminated() == e2.terminated(),
{
}


impl Decoder {
    /// Whether a map may give its next value: an error where the map has
    /// already ended (`done`).
    pub fn check_map_value(done: bool) -> (r: Result<(), Error>)
        ensures
            r is Ok <==> !done,
            r matches Err(e) ==> e@ == ErrorView::MapEnded,
    {
        if done {
            Err(Error::new(ErrorKind::MapEnded))
        } else {
            Ok(())
        }
    }

    /// The error of an array whose element could not be read for the reason
    /// `cause`: it quotes the input where that is valid UTF-8.
    pub fn array_error(&mut self, cause: String) -> (e: Error)
        ensures
            e@ == ErrorView::ArrayElement(cause@, quote(old(self).input())),
            final(self).input() == old(self).input(),
            final(self).rest() == old(self).rest(),
            final(self).terminated() == old(self).terminated(),
            final(self).source_open() == old(self).source_open(),
    {
        let snippet = match self.quote_input() {
            Ok(s) => Some(s),
            Err(_) => None,
        };
        Error::new(ErrorKind::ArrayElement(cause, snippet))
    }
}


/// What reading the next element of an array into a buffer gave.
#[derive(Debug, Clone, Copy, PartialEq, Eq, Structural)]
pub enum ElementEvent {
    /// An element was read.
    Element,
    /// The array has no more elements.
    Ended,
    /// The element could not be read.
    Failed,
}

/// What filling a buffer with the elements of an array does next.
#[derive(Debug, Clone, Copy, PartialEq, Eq, Structural)]
pub enum BufferAction {
    /// Store the element at this index; one more element is then stored.
    Store(usize),
    /// Stop, with this many elements stored.
    Stop(usize),
    /// Fail with the error of the array.
    Fail,
}

/// The decision of filling a buffer of `len` elements, `filled` of which
/// are stored, on what reading the next element gave: an element is stored
/// after the others, the end of the array stops the filling with the
/// number stored, and a failure fails it.
pub fn buffer_step(filled: usize, len: usize, event: ElementEvent) -> (a: BufferAction)
    requires
        filled < len,
    ensures
        a == match event {
            ElementEvent::Element => BufferAction::Store(filled),
            ElementEvent::Ended => BufferAction::Stop(filled),
            ElementEvent::Failed => BufferAction::Fail,
        },
        a matches BufferAction::Store(at) ==> at + 1 <= len,
{
    match event {
        ElementEvent::Element => BufferAction::Store(filled),
        ElementEvent::Ended => BufferAction::Stop(filled),
        ElementEvent::Failed => BufferAction::Fail,
    }
}


/// Decoding chunks as they arrive agrees with decoding the whole input: an
/// operation on a decoder whose stream may deliver more, and has delivered
/// no failure, either asks for more or reads what the same operation reads
/// on a decoder holding any longer input, provided the operation's outcome
/// on the longer input is stable (as `prefix` shows of each operation);
/// the two decoders are then left with inputs that differ by the same
/// extension.
pub proof fn law_streaming<V>(
    d1: Decoder,
    e1: Decoder,
    r1: Result<V, ErrorView>,
    s1: Step<V>,
    d2: Decoder,
    e2: Decoder,
    r2: Result<V, ErrorView>,
    s2: Step<V>,
    ext: Seq<u8>,
)
    requires
        d1.blocked(),
        d1.rest().len() == 0,
        d2.input() == d1.input() + ext,
        d2.terminated() == d1.terminated(),
        !d2.blocked(),
        settles(d1, e1, r1, s1),
        settles(d2, e2, r2, s2),
        stable(s1, s2),
    ensures
        r1 != Err::<V, ErrorView>(ErrorView::NeedMore) ==> {
            &&& r1 is Ok <==> r2 is Ok
            &&& r1 is Ok ==> r1 == r2
            &&& e2.input() == e1.input() + ext
        },
{
    if r1 != Err::<V, ErrorView>(ErrorView::NeedMore) {
        assert(!s1.hit_end);
        assert(d2.input().skip(s1.pos) =~= d1.input().skip(s1.pos) + ext);
    }
}

} // verus!
