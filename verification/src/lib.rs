//! Decoding and encoding of JSON streams.
//!
//! The decoder reads a JSON document from a sequence of byte chunks, the way
//! it arrives from a stream, and the encoder produces the JSON text of
//! primitive values together with the framing (brackets, braces, colons and
//! commas) of lists and maps whose elements are encoded separately.
use vstd::prelude::*;

pub mod constants;
pub mod de;
pub mod en;
pub mod laws;
pub mod compose;

verus! {

} // verus!
