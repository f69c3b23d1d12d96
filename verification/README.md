# destream_json

Decoding and encoding of JSON streams, verified with Verus.

- `src/de.rs` and `src/de/`: the decoder. A `Decoder` reads a JSON document
  from a sequence of byte chunks. Each operation (skipping white space,
  reading a delimiter, a string, an integer, a boolean, `null`, telling the
  kind of the next value, skipping a whole value, opening and closing lists
  and maps, checking the end of the document) is specified in
  `src/de/grammar.rs` as a function of the bytes that are left, and proved to
  behave so whatever the chunking of the input and wherever the stream fails.
- `src/en.rs` and `src/en/stream.rs`: the encoder. The text of strings,
  integers, booleans, `null` and byte buffers (as base64), and the framing of
  lists and maps whose elements are encoded separately, in full or while
  they arrive from a stream.
- `src/de/prefix.rs`: an operation that did not need to look past the end of
  what has arrived reads the same however much more arrives, so a decoder of
  a stream can run an operation on what has arrived and run it again once
  more has arrived where it needed more.
- `src/de/skip.rs`: skipping a value consumes exactly one complete JSON
  value, of any kind, and skipping a string exactly one JSON string.
- `src/laws.rs`: what the decoder reads of what the encoder writes.
- `src/compose.rs`: lists and maps that the encoder frames read back as
  their elements, for any element reader that reads back its own elements,
  so that the round trip holds of nested values too.
- `app/`: the connection to the `destream` traits, to async streams and
  readers (whose chunks it hands the decoder as they arrive), and to
  floating-point numbers, which the library does not hold.
